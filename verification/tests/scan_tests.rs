use clipvault::scan::extract_ip_addresses;
use clipvault::scan::detect_ips_in_text;
use clipvault::scan::is_valid_ip;

fn b(s: &str) -> Vec<u8> {
    s.as_bytes().to_vec()
}

#[test]
fn out_of_range_octet_is_rejected() {
    let found = extract_ip_addresses(&b("reach 10.0.0.1 or 999.1.1.1"));
    assert_eq!(found, vec![b("10.0.0.1")]);
}

#[test]
fn plain_address_is_found() {
    assert_eq!(extract_ip_addresses(&b("192.168.0.1")), vec![b("192.168.0.1")]);
}

#[test]
fn several_addresses_in_order_with_duplicates() {
    let found = extract_ip_addresses(&b("a 1.2.3.4 b 10.0.0.1, then 1.2.3.4 again"));
    assert_eq!(found, vec![b("1.2.3.4"), b("10.0.0.1"), b("1.2.3.4")]);
}

#[test]
fn word_boundary_blocks_adjacent_digits() {
    assert_eq!(extract_ip_addresses(&b("a10.0.0.1")), Vec::<Vec<u8>>::new());
    assert_eq!(extract_ip_addresses(&b("10.0.0.1a")), Vec::<Vec<u8>>::new());
    assert_eq!(extract_ip_addresses(&b("x_10.0.0.1")), Vec::<Vec<u8>>::new());
}

#[test]
fn punctuation_boundary_is_permeable() {
    assert_eq!(extract_ip_addresses(&b("(10.0.0.1)")), vec![b("10.0.0.1")]);
    assert_eq!(extract_ip_addresses(&b("ip:10.0.0.1.")), vec![b("10.0.0.1")]);
}

#[test]
fn five_groups_match_the_first_four() {
    assert_eq!(extract_ip_addresses(&b("1.2.3.4.5")), vec![b("1.2.3.4")]);
}

#[test]
fn four_digit_group_never_matches() {
    assert_eq!(extract_ip_addresses(&b("1234.1.1.1")), Vec::<Vec<u8>>::new());
    assert_eq!(extract_ip_addresses(&b("1.2.3.1234")), Vec::<Vec<u8>>::new());
}

#[test]
fn empty_text_yields_nothing() {
    assert_eq!(extract_ip_addresses(&b("")), Vec::<Vec<u8>>::new());
}

#[test]
fn detect_command_matches_extraction() {
    let t = b("a 8.8.8.8 b");
    assert_eq!(detect_ips_in_text(&t), extract_ip_addresses(&t));
}

#[test]
fn valid_ip_accepts_bounds() {
    assert!(is_valid_ip(&b("0.0.0.0")));
    assert!(is_valid_ip(&b("255.255.255.255")));
    assert!(is_valid_ip(&b("127.0.0.1")));
}

#[test]
fn valid_ip_rejects_out_of_range() {
    assert!(!is_valid_ip(&b("256.0.0.1")));
    assert!(!is_valid_ip(&b("999.1.1.1")));
}

#[test]
fn valid_ip_rejects_wrong_shape() {
    assert!(!is_valid_ip(&b("1.2.3")));
    assert!(!is_valid_ip(&b("1.2.3.4.5")));
    assert!(!is_valid_ip(&b("a.b.c.d")));
    assert!(!is_valid_ip(&b("")));
    assert!(!is_valid_ip(&b("1..2.3")));
    assert!(!is_valid_ip(&b("1.2.3.")));
}

#[test]
fn valid_ip_follows_the_unsigned_integer_grammar() {
    // parse-style octets: leading zeros and a leading plus are tolerated
    assert!(is_valid_ip(&b("01.2.3.4")));
    assert!(is_valid_ip(&b("001.002.003.004")));
    assert!(is_valid_ip(&b("+1.2.3.4")));
    assert!(!is_valid_ip(&b("+.2.3.4")));
    assert!(!is_valid_ip(&b("-1.2.3.4")));
    assert!(!is_valid_ip(&b(" 1.2.3.4")));
}

#[test]
fn leading_zero_candidates_extract() {
    assert_eq!(extract_ip_addresses(&b("x 010.001.000.200 y")), vec![b("010.001.000.200")]);
}
