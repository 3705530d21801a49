use clipvault::model::AppData;
use clipvault::model::ClipboardItem;
use clipvault::fingerprint::fingerprint;
use clipvault::fingerprint::structural_fingerprint;
use clipvault::fingerprint::should_autosave;
use clipvault::persist::render_log_entry;
use clipvault::persist::format_log_line;
use clipvault::outside::new_id;
use clipvault::outside::now_unix_millis;

fn b(s: &str) -> Vec<u8> {
    s.as_bytes().to_vec()
}

#[test]
fn fingerprint_is_deterministic_and_separates_content() {
    let x = fingerprint(&b("some sample"));
    let y = fingerprint(&b("some sample"));
    let z = fingerprint(&b("other sample"));
    assert_eq!(x, y);
    assert_ne!(x, z);
}

#[test]
fn fingerprint_matches_the_reference_value() {
    // FNV-1a of the empty input is its offset basis
    assert_eq!(fingerprint(&b("")), 0xcbf2_9ce4_8422_2325);
    // one byte: (basis ^ 0x61) * prime, wrapping
    let expected = (0xcbf2_9ce4_8422_2325u64 ^ 0x61).wrapping_mul(0x100000001b3);
    assert_eq!(fingerprint(&b("a")), expected);
}

#[test]
fn autosave_fires_only_on_a_structural_change() {
    let mut d = AppData::default();
    let fp0 = structural_fingerprint(&d);
    assert!(should_autosave(&d, None));
    assert!(!should_autosave(&d, Some(fp0)));
    d.insert_history(ClipboardItem::new(b("a"), b("x"), b("text"), 1));
    assert!(should_autosave(&d, Some(fp0)));
    let fp1 = structural_fingerprint(&d);
    // replacing content without changing any length keeps the summary
    d.history[0].content = b("ys");
    assert_eq!(structural_fingerprint(&d), fp1);
    assert!(!should_autosave(&d, Some(fp1)));
}

#[test]
fn fresh_identifiers_are_hyphenated_and_distinct() {
    let a = new_id();
    let c = new_id();
    assert_eq!(a.len(), 36);
    assert_eq!(c.len(), 36);
    assert_eq!(a[8], b'-');
    assert_eq!(a[13], b'-');
    assert_ne!(a, c);
}

#[test]
fn the_clock_is_past_the_epoch() {
    let t = now_unix_millis();
    // any instant this test can run at lies after 2020-01-01
    assert!(t > 1_577_836_800_000);
}

#[test]
fn log_lines_carry_the_rendered_instant() {
    let line = render_log_entry(0, &b("INFO"), &b("engine started"));
    assert_eq!(line, b("[1970-01-01 00:00:00 UTC] INFO: engine started\n"));
    let line = render_log_entry(1_000_000_000_555, &b("WARN"), &b("x"));
    assert_eq!(line, b("[2001-09-09 01:46:40 UTC] WARN: x\n"));
}

#[test]
fn log_line_framing_is_exact() {
    let line = format_log_line(&b("TS"), &b("ERROR"), &b("boom"));
    assert_eq!(line, b("[TS] ERROR: boom\n"));
}
