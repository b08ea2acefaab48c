use ipcalc::addr::u32_to_ipv4;
use ipcalc::render::{binary_octets_with_split, format_ipv4, to_binary};

#[test]
fn dotted_decimal_rendering() {
    assert_eq!(format_ipv4([192, 168, 1, 10]), "192.168.1.10");
    assert_eq!(format_ipv4([0, 0, 0, 0]), "0.0.0.0");
    assert_eq!(format_ipv4([255, 255, 255, 255]), "255.255.255.255");
    assert_eq!(format_ipv4([8, 8, 8, 8]), "8.8.8.8");
    assert_eq!(format_ipv4([10, 0, 100, 9]), "10.0.100.9");
}

#[test]
fn plain_binary_rendering() {
    assert_eq!(to_binary([255, 0, 170, 1]), "11111111 00000000 10101010 00000001");
    assert_eq!(to_binary(u32_to_ipv4(0xC0A8010A)), "11000000 10101000 00000001 00001010");
}

#[test]
fn split_at_prefix_20_divides_the_third_octet() {
    // the /20 mask is 255.255.240.0; the boundary falls four bits into
    // the third octet, which is rendered as two four-bit groups
    assert_eq!(binary_octets_with_split(0xFFFFF000, 20), "11111111 11111111 1111 0000 00000000");
    assert_eq!(binary_octets_with_split(0xC0A8010A, 20), "11000000 10101000 0000 0001 00001010");
}

#[test]
fn no_split_when_prefix_is_a_multiple_of_eight() {
    assert_eq!(binary_octets_with_split(0xFFFFFF00, 24), "11111111 11111111 11111111 00000000");
    assert_eq!(binary_octets_with_split(0xC0A8010A, 24), "11000000 10101000 00000001 00001010");
    assert_eq!(binary_octets_with_split(0xC0A8010A, 0), "11000000 10101000 00000001 00001010");
    assert_eq!(binary_octets_with_split(0xC0A8010A, 32), "11000000 10101000 00000001 00001010");
}

#[test]
fn split_in_first_and_last_octet() {
    assert_eq!(binary_octets_with_split(0x80000000, 1), "1 0000000 00000000 00000000 00000000");
    assert_eq!(binary_octets_with_split(0xFFFFFFFE, 31), "11111111 11111111 11111111 1111111 0");
}
