use bandix_plus::addr::{ip_to_string, ipv4_in_cidr, key_ip_to_string};
use bandix_plus::names::{
    decode_component, encode_component, is_dangling, is_ring_file, mac_from_str, mac_hex_to_colon,
    mac_to_string, normalize_mac_hex, ring_stem, split_at_last_dash,
};
use bandix_plus::text::{has_char, lower_text, same_text, same_text_ignoring_case};

#[test]
fn components_go_there_and_back() {
    assert_eq!(encode_component("eth0"), "65746830");
    assert_eq!(encode_component("br-lan"), "62722d6c616e");
    assert_eq!(encode_component("ä"), "c3a4");
    assert_eq!(encode_component(""), "");
    for name in ["eth0", "br-lan", "wg.1", "ä€", "a b"] {
        assert_eq!(decode_component(&encode_component(name)).as_deref(), Some(name));
    }
}

#[test]
fn components_that_are_none() {
    assert_eq!(decode_component(""), None);
    assert_eq!(decode_component("616"), None);
    assert_eq!(decode_component("6g"), None);
    assert_eq!(decode_component("ff"), None);
    assert_eq!(decode_component("+5"), Some("\u{5}".to_string()));
    assert_eq!(decode_component("4A"), Some("J".to_string()));
    assert!(is_dangling("ä"));
    assert!(!is_dangling("6162"));
    assert!(!is_dangling("zzä"));
    assert_eq!(decode_component("zzä"), None);
}

#[test]
fn macs() {
    assert_eq!(normalize_mac_hex("AA:bb:CC:dd:EE:0f").as_deref(), Some("aabbccddee0f"));
    assert_eq!(normalize_mac_hex("aabbccddee0f").as_deref(), Some("aabbccddee0f"));
    assert_eq!(normalize_mac_hex("aa:bb:cc:dd:ee"), None);
    assert_eq!(normalize_mac_hex("aa:bb:cc:dd:ee:0g"), None);
    assert_eq!(mac_hex_to_colon("AABBCCDDEE0F").as_deref(), Some("aa:bb:cc:dd:ee:0f"));
    assert_eq!(mac_hex_to_colon("aabbccddee0"), None);
    assert_eq!(mac_hex_to_colon("aabbccddee0x"), None);
    let mac = [0xaa, 0xbb, 0xcc, 0xdd, 0xee, 0x0f];
    assert_eq!(mac_to_string(&mac), "aa:bb:cc:dd:ee:0f");
    assert_eq!(mac_from_str("aa:bb:cc:dd:ee:0f"), Some(mac));
    assert_eq!(mac_from_str(&mac_to_string(&mac)), Some(mac));
    assert_eq!(mac_from_str("nonsense"), None);
    let digits = normalize_mac_hex(&mac_to_string(&mac)).unwrap();
    assert_eq!(mac_hex_to_colon(&digits).unwrap(), mac_to_string(&mac));
}

#[test]
fn ring_file_names() {
    assert!(is_ring_file("6162.ring"));
    assert!(!is_ring_file(".ring"));
    assert!(!is_ring_file("6162.ring.bad.17"));
    assert!(!is_ring_file("6162"));
    assert_eq!(ring_stem("6162.ring"), "6162");
    assert_eq!(
        split_at_last_dash("61-62-aabb"),
        Some(("61-62".to_string(), "aabb".to_string()))
    );
    assert_eq!(split_at_last_dash("6162"), None);
    assert_eq!(split_at_last_dash("-"), Some((String::new(), String::new())));
}

#[test]
fn texts_are_compared() {
    assert!(same_text("abc", "abc"));
    assert!(!same_text("abc", "abd"));
    assert!(!same_text("abc", "abcd"));
    assert!(same_text_ignoring_case("AA:bB", "aa:Bb"));
    assert!(!same_text_ignoring_case("Ä", "ä"));
    assert_eq!(lower_text("LaN Zone"), "lan zone");
    assert!(has_char("a.b", '.'));
    assert!(!has_char("ab", '.'));
}

#[test]
fn address_texts() {
    let mut v4 = [0u8; 16];
    v4[..4].copy_from_slice(&[192, 168, 1, 20]);
    assert_eq!(key_ip_to_string(4, &v4), "192.168.1.20");
    let v6 = [0x20, 0x01, 0x0d, 0xb8, 0, 0, 0, 0, 0, 0, 0, 0, 0, 0, 0, 1];
    assert_eq!(key_ip_to_string(6, &v6), "2001:0db8:0000:0000:0000:0000:0000:0001");
    assert_eq!(ip_to_string(v6), "2001:0db8:0000:0000:0000:0000:0000:0001");
    let mapped = [0, 0, 0, 0, 0, 0, 0, 0, 0, 0, 0xff, 0xff, 10, 0, 0, 255];
    assert_eq!(ip_to_string(mapped), "10.0.0.255");
    let padded = [0, 0, 0, 0, 0, 0, 0, 0, 0, 0, 0, 0, 10, 0, 0, 1];
    assert_eq!(ip_to_string(padded), "10.0.0.1");
    assert_eq!(ip_to_string([0; 16]), "0000:0000:0000:0000:0000:0000:0000:0000");
}

#[test]
fn addresses_in_networks() {
    assert!(ipv4_in_cidr("192.168.1.20", "192.168.1.0/24"));
    assert!(ipv4_in_cidr("192.168.1.20", "192.168.1.1/24"));
    assert!(!ipv4_in_cidr("192.168.2.20", "192.168.1.0/24"));
    assert!(ipv4_in_cidr("192.168.1.130", "192.168.1.128/25"));
    assert!(!ipv4_in_cidr("192.168.1.127", "192.168.1.128/25"));
    assert!(ipv4_in_cidr("8.8.8.8", "0.0.0.0/0"));
    assert!(ipv4_in_cidr("10.0.0.1", "10.0.0.1/32"));
    assert!(!ipv4_in_cidr("10.0.0.2", "10.0.0.1/32"));
    assert!(!ipv4_in_cidr("10.0.0.1", "10.0.0.1"));
    assert!(!ipv4_in_cidr("10.0.0.1", "10.0.0.1/33"));
    assert!(!ipv4_in_cidr("10.0.0.01", "10.0.0.0/24"));
    assert!(!ipv4_in_cidr("10.0.0.256", "10.0.0.0/8"));
    assert!(!ipv4_in_cidr("10.0.0", "10.0.0.0/8"));
    assert!(!ipv4_in_cidr("fe80::1", "0.0.0.0/0"));
    assert!(!ipv4_in_cidr("", ""));
}
