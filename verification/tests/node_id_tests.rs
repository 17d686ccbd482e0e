//! Tests for NodeId - SHA-1 based node identification

use chordify::NodeId;

fn addr_id(text: &str) -> NodeId {
    NodeId::from_address(text)
}

// ==================== Hash Determinism Tests ====================

#[test]
fn test_same_address_produces_same_id() {
    let id1 = addr_id("127.0.0.1:8000");
    let id2 = addr_id("127.0.0.1:8000");
    assert_eq!(id1, id2, "Same address should produce same ID");
}

#[test]
fn test_same_key_produces_same_id() {
    let id1 = NodeId::from_key("Song Title");
    let id2 = NodeId::from_key("Song Title");
    assert_eq!(id1, id2, "Same key should produce same ID");
}

#[test]
fn test_different_addresses_produce_different_ids() {
    let id1 = addr_id("127.0.0.1:8000");
    let id2 = addr_id("127.0.0.1:8001");
    assert_ne!(id1, id2, "Different addresses should produce different IDs");
}

#[test]
fn test_different_keys_produce_different_ids() {
    let id1 = NodeId::from_key("Song A");
    let id2 = NodeId::from_key("Song B");
    assert_ne!(id1, id2, "Different keys should produce different IDs");
}

#[test]
fn test_different_ports_same_ip_different_ids() {
    let id1 = addr_id("192.168.1.1:3000");
    let id2 = addr_id("192.168.1.1:3001");
    assert_ne!(id1, id2);
}

#[test]
fn test_different_ips_same_port_different_ids() {
    let id1 = addr_id("192.168.1.1:3000");
    let id2 = addr_id("192.168.1.2:3000");
    assert_ne!(id1, id2);
}

// ==================== Hex Conversion Tests ====================

#[test]
fn test_hex_roundtrip() {
    let id = addr_id("10.0.0.1:5000");
    let hex = id.to_hex();
    let recovered = NodeId::from_hex(&hex).unwrap();
    assert_eq!(id, recovered, "Hex roundtrip should preserve ID");
}

#[test]
fn test_hex_length_is_40_chars() {
    let id = NodeId::from_key("test");
    let hex = id.to_hex();
    assert_eq!(hex.len(), 40, "SHA-1 hex should be 40 characters");
}

#[test]
fn test_from_hex_invalid_length() {
    let result = NodeId::from_hex("abc");
    assert!(result.is_none(), "Invalid hex length should return None");
}

#[test]
fn test_from_hex_invalid_characters() {
    let result = NodeId::from_hex("zzzzzzzzzzzzzzzzzzzzzzzzzzzzzzzzzzzzzzzz");
    assert!(result.is_none(), "Invalid hex characters should return None");
}

#[test]
fn test_hex_is_lowercase() {
    let id = NodeId::from_key("test");
    let hex = id.to_hex();
    assert_eq!(hex, hex.to_lowercase(), "Hex should be lowercase");
}

// ==================== Ring Arithmetic Tests ====================

#[test]
fn test_is_between_normal_range() {
    let a = NodeId::from_key("aaa");
    let b = NodeId::from_key("bbb");
    let c = NodeId::from_key("ccc");

    let mut sorted = vec![a, b, c];
    sorted.sort();
    let (low, mid, high) = (sorted[0], sorted[1], sorted[2]);

    assert!(mid.is_between(&low, &high), "mid should be between low and high");
}

#[test]
fn test_is_between_exclusive_start() {
    let a = NodeId::from_key("x");
    let b = NodeId::from_key("y");

    let mut sorted = vec![a, b];
    sorted.sort();
    let (low, high) = (sorted[0], sorted[1]);

    assert!(!low.is_between(&low, &high), "Start should be exclusive");
}

#[test]
fn test_is_between_inclusive_end() {
    let a = NodeId::from_key("p");
    let b = NodeId::from_key("q");

    let mut sorted = vec![a, b];
    sorted.sort();
    let (low, high) = (sorted[0], sorted[1]);

    assert!(high.is_between(&low, &high), "End should be inclusive");
}

#[test]
fn test_is_between_wrap_around() {
    let min = NodeId::min();
    let max = NodeId::max();
    let mid = NodeId::from_key("middle");

    assert!(mid.is_between(&max, &min) || mid.is_between(&min, &max));
}

#[test]
fn test_is_between_same_start_end() {
    let id = NodeId::from_key("test");
    assert!(id.is_between(&id, &id), "ID should be between itself");
}

// ==================== Ordering Tests ====================

#[test]
fn test_ordering_is_consistent() {
    let a = NodeId::from_key("alpha");
    let b = NodeId::from_key("beta");

    let cmp1 = a.cmp(&b);
    let cmp2 = a.cmp(&b);
    assert_eq!(cmp1, cmp2, "Ordering should be consistent");
}

#[test]
fn test_equality_is_reflexive() {
    let id = NodeId::from_key("test");
    assert_eq!(id, id, "ID should equal itself");
}

#[test]
fn test_min_max_ordering() {
    let min = NodeId::min();
    let max = NodeId::max();
    assert!(min < max, "min should be less than max");
}

#[test]
fn test_any_id_between_min_max() {
    let min = NodeId::min();
    let max = NodeId::max();
    let id = NodeId::from_key("anything");

    assert!(id >= min, "Any ID should be >= min");
    assert!(id <= max, "Any ID should be <= max");
}

// ==================== Display Tests ====================

#[test]
fn test_display_shows_short_hex() {
    let id = NodeId::from_key("test");
    let display = id.to_display_string();
    assert_eq!(display.len(), 8, "Display should show 8 hex chars");
}

#[test]
fn test_debug_shows_full_hex() {
    let id = NodeId::from_key("test");
    let debug = id.to_debug_string();
    assert!(debug.contains(&id.to_hex()), "Debug should contain full hex");
}

// ==================== Edge Cases ====================

#[test]
fn test_empty_key() {
    let id1 = NodeId::from_key("");
    let id2 = NodeId::from_key("");
    assert_eq!(id1, id2, "Empty key should be deterministic");
}

#[test]
fn test_unicode_key() {
    let id1 = NodeId::from_key("Τραγούδι 🎵");
    let id2 = NodeId::from_key("Τραγούδι 🎵");
    assert_eq!(id1, id2, "Unicode keys should work");
}

#[test]
fn test_very_long_key() {
    let long_key = "a".repeat(10000);
    let id1 = NodeId::from_key(&long_key);
    let id2 = NodeId::from_key(&long_key);
    assert_eq!(id1, id2, "Long keys should work");
}

#[test]
fn test_ipv6_address() {
    let id1 = addr_id("[::1]:8000");
    let id2 = addr_id("[::1]:8000");
    assert_eq!(id1, id2, "IPv6 addresses should work");
}

// ==================== Further cases ====================

#[test]
fn test_known_sha1_digest_of_key() {
    // SHA-1("abc") = a9993e364706816aba3e25717850c26c9cd0d89d
    let id = NodeId::from_key("abc");
    assert_eq!(id.to_hex(), "a9993e364706816aba3e25717850c26c9cd0d89d");
    assert_eq!(id.to_display_string(), "a9993e36");
    assert_eq!(id.to_debug_string(), "NodeId(a9993e364706816aba3e25717850c26c9cd0d89d)");
}

#[test]
fn test_from_bytes_as_bytes() {
    let mut bytes = [0u8; 20];
    bytes[0] = 0xab;
    bytes[19] = 0x01;
    let id = NodeId::from_bytes(bytes);
    assert_eq!(id.as_bytes(), &bytes);
    assert_eq!(id.to_hex(), "ab00000000000000000000000000000000000001");
}

#[test]
fn test_from_hex_accepts_uppercase_only_digits() {
    let upper = NodeId::from_hex("A9993E364706816ABA3E25717850C26C9CD0D89D").unwrap();
    assert_eq!(upper, NodeId::from_key("abc"));
    assert!(NodeId::from_hex(&"+0".repeat(20)).is_none());
    assert!(NodeId::from_hex("+f00000000000000000000000000000000000000").is_none());
    assert!(NodeId::from_hex("-f00000000000000000000000000000000000000").is_none());
    // Multi-byte characters are not digits: 20 two-byte characters give None.
    assert!(NodeId::from_hex(&"é".repeat(20)).is_none());
    assert!(NodeId::from_hex(&format!("0{}{}", "é", "0".repeat(37))).is_none());
}

#[test]
fn test_min_max_hex() {
    assert_eq!(NodeId::min().to_hex(), "0".repeat(40));
    assert_eq!(NodeId::max().to_hex(), "f".repeat(40));
}

#[test]
fn test_is_between_partition() {
    let a = NodeId::from_key("one");
    let b = NodeId::from_key("two");
    for k in ["x1", "x2", "x3", "x4", "x5", "one", "two"] {
        let x = NodeId::from_key(k);
        assert_ne!(x.is_between(&a, &b), x.is_between(&b, &a));
    }
}

#[test]
fn test_precedes_and_equals() {
    let a = NodeId::from_key("alpha");
    let b = NodeId::from_key("beta");
    assert_eq!(a.precedes(&b), a < b);
    assert_eq!(b.precedes(&a), b < a);
    assert!(a.equals(&a));
    assert!(!a.equals(&b));
}

#[test]
fn test_hex_order_matches_id_order() {
    let keys = ["a", "b", "Hey Jude", "", "zzz", "127.0.0.1:5000", "Yesterday"];
    for x in keys {
        for y in keys {
            let a = NodeId::from_key(x);
            let b = NodeId::from_key(y);
            assert_eq!(a.cmp(&b), a.to_hex().cmp(&b.to_hex()));
        }
    }
}
