use ipcalc::addr::{ipv4_to_u32, u32_to_ipv4};
use ipcalc::classify::{detect_class_and_priv, format_classification, AddrClass};
use ipcalc::engine::{
    compute_broadcast, compute_host_count, compute_host_range, compute_network, mask_from_prefix,
    wildcard_from_mask,
};
use ipcalc::render::format_ipv4;
use ipcalc::report::analyze;

fn dotted(x: u32) -> String {
    format_ipv4(u32_to_ipv4(x))
}

#[test]
fn mask_has_leading_ones_for_every_prefix() {
    for p in 0..=32u8 {
        let mask = mask_from_prefix(p);
        let expected: u32 = if p == 0 {
            0
        } else {
            ((0xFFFF_FFFFu64 << (32 - p as u32)) & 0xFFFF_FFFF) as u32
        };
        assert_eq!(mask, expected);
        for i in 0..32u32 {
            let bit_set = (mask >> i) & 1 == 1;
            assert_eq!(bit_set, i >= 32 - p as u32);
        }
        assert_eq!(wildcard_from_mask(mask), !mask);
    }
}

#[test]
fn network_and_wildcard_partition_broadcast() {
    let samples: [(u32, u8); 5] =
        [(0xC0A8010A, 24), (0x0A000000, 31), (0x08080808, 32), (0x12345678, 0), (0xFFFFFFFF, 13)];
    for (addr, p) in samples {
        let mask = mask_from_prefix(p);
        let wildcard = wildcard_from_mask(mask);
        let network = compute_network(addr, mask);
        let broadcast = compute_broadcast(network, wildcard);
        assert_eq!(network & wildcard, 0);
        assert_eq!(network | wildcard, broadcast);
        assert_eq!(network as u64 + wildcard as u64, broadcast as u64);
    }
}

#[test]
fn slash_24_example() {
    let info = analyze([192, 168, 1, 10], 24);
    assert_eq!(dotted(info.network), "192.168.1.0");
    assert_eq!(dotted(info.broadcast), "192.168.1.255");
    assert_eq!(dotted(info.host_min), "192.168.1.1");
    assert_eq!(dotted(info.host_max), "192.168.1.254");
    assert_eq!(info.host_count, 254);
    assert_eq!(info.class, AddrClass::ClassC);
    assert!(info.is_private);
}

#[test]
fn slash_31_example() {
    let info = analyze([10, 0, 0, 0], 31);
    assert_eq!(dotted(info.host_min), "10.0.0.0");
    assert_eq!(dotted(info.host_max), "10.0.0.1");
    assert_eq!(info.host_count, 2);
}

#[test]
fn slash_32_example() {
    let info = analyze([8, 8, 8, 8], 32);
    assert_eq!(dotted(info.network), "8.8.8.8");
    assert_eq!(dotted(info.broadcast), "8.8.8.8");
    assert_eq!(dotted(info.host_min), "8.8.8.8");
    assert_eq!(dotted(info.host_max), "8.8.8.8");
    assert_eq!(info.host_count, 1);
    assert_eq!(info.class, AddrClass::ClassA);
    assert!(!info.is_private);
}

#[test]
fn slash_0_example() {
    let info = analyze([1, 2, 3, 4], 0);
    assert_eq!(dotted(info.mask), "0.0.0.0");
    assert_eq!(dotted(info.network), "0.0.0.0");
    assert_eq!(dotted(info.broadcast), "255.255.255.255");
    assert_eq!(info.host_count, 4294967294);
}

#[test]
fn host_range_excludes_endpoints_up_to_30() {
    let mask = mask_from_prefix(30);
    let network = compute_network(0xC0A80105, mask);
    let broadcast = compute_broadcast(network, wildcard_from_mask(mask));
    let (lo, hi) = compute_host_range(network, broadcast, 30);
    assert_eq!(lo, network + 1);
    assert_eq!(hi, broadcast - 1);
    assert_eq!(compute_host_count(30), 2);
}

#[test]
fn class_boundaries() {
    assert_eq!(detect_class_and_priv([126, 0, 0, 1]).0, AddrClass::ClassA);
    assert_eq!(detect_class_and_priv([127, 0, 0, 1]).0, AddrClass::Loopback);
    assert_eq!(detect_class_and_priv([128, 0, 0, 1]).0, AddrClass::ClassB);
    assert_eq!(detect_class_and_priv([191, 0, 0, 1]).0, AddrClass::ClassB);
    assert_eq!(detect_class_and_priv([192, 0, 0, 1]).0, AddrClass::ClassC);
    assert_eq!(detect_class_and_priv([223, 0, 0, 1]).0, AddrClass::ClassC);
    assert_eq!(detect_class_and_priv([224, 0, 0, 1]).0, AddrClass::ClassD);
    assert_eq!(detect_class_and_priv([239, 0, 0, 1]).0, AddrClass::ClassD);
    assert_eq!(detect_class_and_priv([240, 0, 0, 1]).0, AddrClass::ClassE);
    assert_eq!(detect_class_and_priv([0, 1, 2, 3]).0, AddrClass::ZeroReserved);
}

#[test]
fn private_range_boundaries() {
    assert!(!detect_class_and_priv([172, 15, 0, 1]).1);
    assert!(detect_class_and_priv([172, 16, 0, 1]).1);
    assert!(detect_class_and_priv([172, 31, 255, 255]).1);
    assert!(!detect_class_and_priv([172, 32, 0, 1]).1);
    assert!(detect_class_and_priv([10, 200, 3, 4]).1);
    assert!(detect_class_and_priv([192, 168, 99, 1]).1);
    assert!(!detect_class_and_priv([192, 167, 99, 1]).1);
    assert!(!detect_class_and_priv([11, 0, 0, 1]).1);
}

#[test]
fn class_labels() {
    assert_eq!(AddrClass::ZeroReserved.label(), "Address with 0.x (reserved)");
    assert_eq!(AddrClass::ClassA.label(), "Class A");
    assert_eq!(AddrClass::Loopback.label(), "Loopback");
    assert_eq!(AddrClass::ClassB.label(), "Class B");
    assert_eq!(AddrClass::ClassC.label(), "Class C");
    assert_eq!(AddrClass::ClassD.label(), "Class D (multicast)");
    assert_eq!(AddrClass::ClassE.label(), "Class E (reserved)");
    assert_eq!(format_classification(AddrClass::ClassC, true), "Class C, Private Internet");
    assert_eq!(format_classification(AddrClass::ClassE, false), "Class E (reserved)");
}

#[test]
fn octet_conversions_round_trip() {
    assert_eq!(ipv4_to_u32([192, 168, 1, 10]), 0xC0A8010A);
    assert_eq!(u32_to_ipv4(0xC0A8010A), [192, 168, 1, 10]);
    for x in [0u32, 1, 0xFF, 0x100, 0x01020304, 0xFFFFFFFF, 0x7F000001] {
        assert_eq!(ipv4_to_u32(u32_to_ipv4(x)), x);
    }
}
