use ipcalc::parse::{parse_input, ParseError};
use ipcalc::render::format_ipv4;

#[test]
fn rendered_addresses_parse_back() {
    let samples: [([u8; 4], u8); 5] = [
        ([0, 0, 0, 0], 0),
        ([255, 255, 255, 255], 32),
        ([10, 0, 100, 9], 8),
        ([192, 168, 1, 10], 24),
        ([1, 22, 133, 244], 17),
    ];
    for (o, p) in samples {
        let text = format!("{}/{}", format_ipv4(o), p);
        assert_eq!(parse_input(text.as_bytes()), Ok((o, p)));
    }
}

#[test]
fn well_formed_inputs_parse() {
    assert_eq!(parse_input(b"192.168.1.10/24"), Ok(([192, 168, 1, 10], 24)));
    assert_eq!(parse_input(b"10.0.0.0/31"), Ok(([10, 0, 0, 0], 31)));
    assert_eq!(parse_input(b"8.8.8.8/32"), Ok(([8, 8, 8, 8], 32)));
    assert_eq!(parse_input(b"0.0.0.0/0"), Ok(([0, 0, 0, 0], 0)));
    assert_eq!(parse_input(b"255.255.255.255/32"), Ok(([255, 255, 255, 255], 32)));
}

#[test]
fn missing_slash_is_a_format_error() {
    assert_eq!(parse_input(b"1.2.3.4"), Err(ParseError::InvalidFormat));
    assert_eq!(parse_input(b""), Err(ParseError::InvalidFormat));
    assert_eq!(parse_input(b"1.2.3.4/8/9"), Err(ParseError::InvalidFormat));
}

#[test]
fn prefix_out_of_range_is_a_prefix_error() {
    assert_eq!(parse_input(b"1.2.3.4/33"), Err(ParseError::InvalidPrefix));
    assert_eq!(parse_input(b"1.2.3.4/256"), Err(ParseError::InvalidPrefix));
    assert_eq!(parse_input(b"1.2.3.4/99999999999999999999"), Err(ParseError::InvalidPrefix));
}

#[test]
fn octet_out_of_range_is_an_address_error() {
    assert_eq!(parse_input(b"1.2.3.999/24"), Err(ParseError::InvalidAddress));
    assert_eq!(parse_input(b"256.2.3.4/24"), Err(ParseError::InvalidAddress));
}

#[test]
fn negative_prefix_is_a_prefix_error() {
    assert_eq!(parse_input(b"1.2.3.4/-1"), Err(ParseError::InvalidPrefix));
}

#[test]
fn malformed_addresses_are_address_errors() {
    assert_eq!(parse_input(b"1.2.3/24"), Err(ParseError::InvalidAddress));
    assert_eq!(parse_input(b"1.2.3.4.5/24"), Err(ParseError::InvalidAddress));
    assert_eq!(parse_input(b"a.b.c.d/24"), Err(ParseError::InvalidAddress));
    assert_eq!(parse_input(b"1..2.3/24"), Err(ParseError::InvalidAddress));
    assert_eq!(parse_input(b".1.2.3/24"), Err(ParseError::InvalidAddress));
    assert_eq!(parse_input(b"1.2.3./24"), Err(ParseError::InvalidAddress));
    assert_eq!(parse_input(b"01.2.3.4/24"), Err(ParseError::InvalidAddress));
    assert_eq!(parse_input(b"1.2.3.0004/24"), Err(ParseError::InvalidAddress));
    assert_eq!(parse_input(b" 1.2.3.4/24"), Err(ParseError::InvalidAddress));
}

#[test]
fn prefix_accepts_unsigned_integer_syntax() {
    // a leading plus sign and leading zeros are accepted when parsing
    // an unsigned integer, and the original accepted them too
    assert_eq!(parse_input(b"1.2.3.4/+24"), Ok(([1, 2, 3, 4], 24)));
    assert_eq!(parse_input(b"1.2.3.4/007"), Ok(([1, 2, 3, 4], 7)));
    assert_eq!(parse_input(b"1.2.3.4/"), Err(ParseError::InvalidPrefix));
    assert_eq!(parse_input(b"1.2.3.4/+"), Err(ParseError::InvalidPrefix));
    assert_eq!(parse_input(b"1.2.3.4/2 4"), Err(ParseError::InvalidPrefix));
    assert_eq!(parse_input(b"1.2.3.4/24 "), Err(ParseError::InvalidPrefix));
}
