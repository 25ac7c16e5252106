use geolite_lookup::ipv4::{ipv4_to_string, parse_ipv4};
use geolite_lookup::text::decimal;

#[test]
fn decimal_formats_like_display() {
    assert_eq!(decimal(0), "0");
    assert_eq!(decimal(7), "7");
    assert_eq!(decimal(10), "10");
    assert_eq!(decimal(65535), "65535");
    assert_eq!(decimal(u64::MAX), u64::MAX.to_string());
}

#[test]
fn parses_canonical_dotted_quads() {
    assert_eq!(parse_ipv4("8.8.8.8"), Some(0x08080808));
    assert_eq!(parse_ipv4("0.0.0.0"), Some(0));
    assert_eq!(parse_ipv4("255.255.255.255"), Some(u32::MAX));
    assert_eq!(parse_ipv4("192.168.1.10"), Some(0xC0A8010A));
}

#[test]
fn rejects_what_std_rejects() {
    for bad in [
        "", "1.2.3", "1.2.3.4.5", "256.0.0.1", "01.2.3.4", "1.02.3.4", "1.2.3.4 ", " 1.2.3.4", "1..3.4",
        "1.2.3.", "+1.2.3.4", "1.2.3.4/8", "1.2.3.0004", "999.999.999.999", "not-an-ip", "١.2.3.4",
    ] {
        assert_eq!(parse_ipv4(bad), None, "{bad:?}");
    }
}

#[test]
fn printing_then_parsing_gives_the_address_back() {
    let cases = [
        (0u32, "0.0.0.0"),
        (1, "0.0.0.1"),
        (255, "0.0.0.255"),
        (256, "0.0.1.0"),
        (0x7f000001, "127.0.0.1"),
        (0x0a000001, "10.0.0.1"),
        (0xdeadbeef, "222.173.190.239"),
        (u32::MAX, "255.255.255.255"),
    ];
    for (a, expected) in cases {
        let text = ipv4_to_string(a);
        assert_eq!(text, expected);
        assert_eq!(parse_ipv4(&text), Some(a));
    }
}
