use wakeup::command::{add_host, default_broadcast, plan_wake, resolve_broadcast, wake_packet, WakeError};
use wakeup::mac::{parse_hex_byte, parse_mac_address, MacError};
use wakeup::packet::create_magic_packet;
use wakeup::store::{Config, HostConfig, HostEntry};

fn host(mac: &str, broadcast: &str) -> HostConfig {
    HostConfig { mac: mac.to_string(), broadcast: broadcast.to_string() }
}

fn expected_packet(mac: [u8; 6]) -> Vec<u8> {
    let mut v = vec![0xFFu8; 6];
    for _ in 0..16 {
        v.extend_from_slice(&mac);
    }
    v
}

#[test]
fn parses_upper_case_mac() {
    assert_eq!(parse_mac_address("AA:BB:CC:DD:EE:FF"), Ok([0xAA, 0xBB, 0xCC, 0xDD, 0xEE, 0xFF]));
}

#[test]
fn parses_lower_and_mixed_case_mac() {
    assert_eq!(parse_mac_address("aa:bb:cc:dd:ee:ff"), Ok([0xAA, 0xBB, 0xCC, 0xDD, 0xEE, 0xFF]));
    assert_eq!(parse_mac_address("01:23:45:67:89:aB"), Ok([0x01, 0x23, 0x45, 0x67, 0x89, 0xAB]));
}

#[test]
fn parses_short_and_zero_padded_segments() {
    assert_eq!(parse_mac_address("0:1:a:0F:00ff:7"), Ok([0x00, 0x01, 0x0A, 0x0F, 0xFF, 0x07]));
}

#[test]
fn rejects_wrong_segment_counts() {
    assert_eq!(parse_mac_address("11:22:33"), Err(MacError::WrongSegmentCount));
    assert_eq!(parse_mac_address(""), Err(MacError::WrongSegmentCount));
    assert_eq!(parse_mac_address("11:22:33:44:55:66:77"), Err(MacError::WrongSegmentCount));
    assert_eq!(parse_mac_address("112233445566"), Err(MacError::WrongSegmentCount));
}

#[test]
fn segment_count_is_checked_before_hex() {
    assert_eq!(parse_mac_address("zz:22:33"), Err(MacError::WrongSegmentCount));
}

#[test]
fn rejects_non_hex_segment_naming_the_first() {
    assert_eq!(
        parse_mac_address("11:22:33:44:55:GG"),
        Err(MacError::InvalidSegment { index: 5, segment: "GG".to_string() })
    );
    assert_eq!(
        parse_mac_address("11:x:33:y:55:66"),
        Err(MacError::InvalidSegment { index: 1, segment: "x".to_string() })
    );
    assert_eq!(
        parse_mac_address("11::33:44:55:66"),
        Err(MacError::InvalidSegment { index: 1, segment: String::new() })
    );
}

#[test]
fn rejects_signed_segment() {
    assert_eq!(
        parse_mac_address("+A:BB:CC:DD:EE:FF"),
        Err(MacError::InvalidSegment { index: 0, segment: "+A".to_string() })
    );
    assert_eq!(
        parse_mac_address("0:1:a:0F:00ff:+7"),
        Err(MacError::InvalidSegment { index: 5, segment: "+7".to_string() })
    );
}

#[test]
fn rejects_segment_above_ff() {
    assert_eq!(
        parse_mac_address("100:22:33:44:55:66"),
        Err(MacError::InvalidSegment { index: 0, segment: "100".to_string() })
    );
}

#[test]
fn hex_byte_segments() {
    assert_eq!(parse_hex_byte("ff"), Some(255));
    assert_eq!(parse_hex_byte("FF"), Some(255));
    assert_eq!(parse_hex_byte("0000a"), Some(10));
    assert_eq!(parse_hex_byte("+1f"), None);
    assert_eq!(parse_hex_byte("+"), None);
    assert_eq!(parse_hex_byte("-1"), None);
    assert_eq!(parse_hex_byte(""), None);
    assert_eq!(parse_hex_byte("1 "), None);
    assert_eq!(parse_hex_byte("é"), None);
}

#[test]
fn magic_packet_layout() {
    let mac = [0x01, 0x23, 0x45, 0x67, 0x89, 0xAB];
    let p = create_magic_packet(mac);
    assert_eq!(p.len(), 102);
    assert_eq!(&p[..6], &[0xFF; 6]);
    for r in 0..16 {
        assert_eq!(&p[6 + 6 * r..12 + 6 * r], &mac);
    }
    assert_eq!(p, expected_packet(mac));
}

#[test]
fn wake_packet_from_text() {
    assert_eq!(wake_packet("00:11:22:33:44:55"), Ok(expected_packet([0x00, 0x11, 0x22, 0x33, 0x44, 0x55])));
    assert_eq!(wake_packet("00:11"), Err(MacError::WrongSegmentCount));
}

#[test]
fn default_broadcast_address() {
    assert_eq!(default_broadcast(), "255.255.255.255:9");
    assert_eq!(resolve_broadcast(None), "255.255.255.255:9");
    assert_eq!(resolve_broadcast(Some("192.168.1.255:7".to_string())), "192.168.1.255:7");
}

#[test]
fn store_insert_get_remove() {
    let mut c = Config::new();
    assert!(c.is_empty());
    assert_eq!(c.insert("a".to_string(), host("11:22:33:44:55:66", "10.0.0.255:9")), None);
    assert_eq!(c.get("a"), Some(&host("11:22:33:44:55:66", "10.0.0.255:9")));
    assert_eq!(c.get("b"), None);
    assert_eq!(
        c.insert("a".to_string(), host("66:55:44:33:22:11", "10.0.0.255:7")),
        Some(host("11:22:33:44:55:66", "10.0.0.255:9"))
    );
    assert_eq!(c.entries().len(), 1);
    assert_eq!(c.remove("a"), Some(host("66:55:44:33:22:11", "10.0.0.255:7")));
    assert!(c.is_empty());
}

#[test]
fn removing_missing_host_changes_nothing() {
    let mut c = Config::new();
    c.insert("office".to_string(), host("AA:BB:CC:DD:EE:FF", "255.255.255.255:9"));
    let before = c.entries().clone();
    assert_eq!(c.remove("nobody"), None);
    assert_eq!(c.entries(), &before);
    assert_eq!(c.get("office"), Some(&host("AA:BB:CC:DD:EE:FF", "255.255.255.255:9")));
}

#[test]
fn save_and_reload_keep_hosts() {
    let mut c = Config::new();
    c.insert("office".to_string(), host("AA:BB:CC:DD:EE:FF", "255.255.255.255:9"));
    c.insert("lab".to_string(), host("01:02:03:04:05:06", "10.1.255.255:7"));
    let saved = c.entries().clone();
    let reloaded = Config::from_entries(saved);
    assert_eq!(reloaded.get("office"), Some(&host("AA:BB:CC:DD:EE:FF", "255.255.255.255:9")));
    assert_eq!(reloaded.get("lab"), Some(&host("01:02:03:04:05:06", "10.1.255.255:7")));
    assert_eq!(reloaded.entries().len(), 2);
}

#[test]
fn later_entry_overrides_earlier_on_load() {
    let entries = vec![
        HostEntry { name: "x".to_string(), host: host("01:01:01:01:01:01", "1.1.1.1:9") },
        HostEntry { name: "x".to_string(), host: host("02:02:02:02:02:02", "2.2.2.2:9") },
    ];
    let c = Config::from_entries(entries);
    assert_eq!(c.entries().len(), 1);
    assert_eq!(c.get("x"), Some(&host("02:02:02:02:02:02", "2.2.2.2:9")));
}

#[test]
fn add_without_broadcast_stores_default() {
    let mut c = Config::new();
    let b = resolve_broadcast(None);
    assert_eq!(add_host(&mut c, "office".to_string(), "AA:BB:CC:DD:EE:FF".to_string(), b, true), Ok(()));
    let h = c.get("office").unwrap();
    assert_eq!(h.broadcast, "255.255.255.255:9");
    assert_eq!(h.mac, "AA:BB:CC:DD:EE:FF");
}

#[test]
fn wake_office_sends_magic_packet_to_default_broadcast() {
    let mut c = Config::new();
    add_host(&mut c, "office".to_string(), "AA:BB:CC:DD:EE:FF".to_string(), resolve_broadcast(None), true).unwrap();
    let req = plan_wake(&c, "office").unwrap();
    assert_eq!(req.packet.len(), 102);
    assert_eq!(req.packet, expected_packet([0xAA, 0xBB, 0xCC, 0xDD, 0xEE, 0xFF]));
    assert_eq!(req.broadcast, "255.255.255.255:9");
}

#[test]
fn add_with_three_segments_fails_and_keeps_store() {
    let mut c = Config::new();
    c.insert("keep".to_string(), host("01:02:03:04:05:06", "255.255.255.255:9"));
    let before = c.entries().clone();
    let r = add_host(&mut c, "bad".to_string(), "11:22:33".to_string(), resolve_broadcast(None), true);
    assert_eq!(
        r,
        Err(WakeError::MacFormat { mac: "11:22:33".to_string(), reason: MacError::WrongSegmentCount })
    );
    assert_eq!(c.entries(), &before);
    assert_eq!(c.get("bad"), None);
}

#[test]
fn add_with_bad_broadcast_fails_and_keeps_store() {
    let mut c = Config::new();
    let r = add_host(&mut c, "pc".to_string(), "AA:BB:CC:DD:EE:FF".to_string(), "not-an-address".to_string(), false);
    assert_eq!(r, Err(WakeError::AddressParse("not-an-address".to_string())));
    assert!(c.is_empty());
}

#[test]
fn wake_missing_host_is_not_found() {
    let c = Config::new();
    match plan_wake(&c, "missing") {
        Err(WakeError::HostNotFound(h)) => assert_eq!(h, "missing"),
        _ => panic!("expected a not-found error"),
    }
}

#[test]
fn wake_host_with_bad_stored_mac() {
    let entries = vec![HostEntry { name: "odd".to_string(), host: host("11:22", "1.2.3.255:9") }];
    let c = Config::from_entries(entries);
    match plan_wake(&c, "odd") {
        Err(WakeError::MacFormat { mac, reason }) => {
            assert_eq!(mac, "11:22");
            assert_eq!(reason, MacError::WrongSegmentCount);
        }
        _ => panic!("expected a MAC format error"),
    }
}
