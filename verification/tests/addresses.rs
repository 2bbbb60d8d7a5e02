use reqcore::ip::{ip_text, parse_ip, IpAddress};
use reqcore::relay::parse_network;
use reqcore::strutil::chars_vec;

fn parse(s: &str) -> Option<IpAddress> {
    parse_ip(&chars_vec(s))
}

#[test]
fn parses_dotted_quad() {
    assert_eq!(parse("203.0.113.50"), Some(IpAddress::V4(0xCB007132)));
    assert_eq!(parse("0.0.0.0"), Some(IpAddress::V4(0)));
    assert_eq!(parse("255.255.255.255"), Some(IpAddress::V4(u32::MAX)));
    assert_eq!(parse("127.0.0.1"), Some(IpAddress::V4(0x7F000001)));
}

#[test]
fn rejects_malformed_ipv4() {
    assert_eq!(parse("not-an-ip"), None);
    assert_eq!(parse(""), None);
    assert_eq!(parse("1.2.3"), None);
    assert_eq!(parse("1.2.3.4.5"), None);
    assert_eq!(parse("256.0.0.1"), None);
    assert_eq!(parse("01.2.3.4"), None);
    assert_eq!(parse("1.2.3."), None);
    assert_eq!(parse(" 1.2.3.4"), None);
}

#[test]
fn parses_ipv6_forms() {
    assert_eq!(parse("::1"), Some(IpAddress::V6(1)));
    assert_eq!(parse("::"), Some(IpAddress::V6(0)));
    assert_eq!(
        parse("2001:db8::1"),
        Some(IpAddress::V6(0x20010db8000000000000000000000001))
    );
    assert_eq!(
        parse("1:2:3:4:5:6:7:8"),
        Some(IpAddress::V6(0x00010002000300040005000600070008))
    );
    assert_eq!(parse("fe80::"), Some(IpAddress::V6(0xfe800000000000000000000000000000)));
    assert_eq!(parse("FE80::1"), Some(IpAddress::V6(0xfe800000000000000000000000000001)));
}

#[test]
fn rejects_malformed_ipv6() {
    assert_eq!(parse(":"), None);
    assert_eq!(parse(":::"), None);
    assert_eq!(parse("1::2::3"), None);
    assert_eq!(parse("1:2:3:4:5:6:7"), None);
    assert_eq!(parse("1:2:3:4:5:6:7:8:9"), None);
    assert_eq!(parse("12345::"), None);
    assert_eq!(parse("::1:2:3:4:5:6:7:8"), None);
    assert_eq!(parse("g::1"), None);
}

#[test]
fn formats_ipv4() {
    assert_eq!(ip_text(&IpAddress::V4(0xCB007132)), "203.0.113.50");
    assert_eq!(ip_text(&IpAddress::V4(0)), "0.0.0.0");
    assert_eq!(ip_text(&IpAddress::V4(u32::MAX)), "255.255.255.255");
}

#[test]
fn formats_ipv6_with_compression() {
    assert_eq!(ip_text(&IpAddress::V6(1)), "::1");
    assert_eq!(ip_text(&IpAddress::V6(0)), "::");
    assert_eq!(
        ip_text(&IpAddress::V6(0x20010db8000000000000000000000001)),
        "2001:db8::1"
    );
    assert_eq!(
        ip_text(&IpAddress::V6(0x00010002000300040005000600070008)),
        "1:2:3:4:5:6:7:8"
    );
    // a single zero group is not compressed; the longest run wins, the
    // leftmost on a tie
    assert_eq!(
        ip_text(&IpAddress::V6(0x00010000000300040005000600070008)),
        "1:0:3:4:5:6:7:8"
    );
    assert_eq!(
        ip_text(&IpAddress::V6(0x00010000000000040005000000000008)),
        "1::4:5:0:0:8"
    );
}

#[test]
fn parse_and_format_round_trip() {
    for s in [
        "0.0.0.0",
        "127.0.0.1",
        "203.0.113.50",
        "::",
        "::1",
        "2001:db8::1",
        "fe80::1:2",
        "1:2:3:4:5:6:7:8",
    ] {
        let a = parse(s).expect("should parse");
        assert_eq!(ip_text(&a), s);
    }
}

#[test]
fn full_form_reparses_to_the_compressed_text() {
    // the eight-group spelling of the loopback address parses to the same
    // value and renders back in the compressed form
    assert_eq!(parse("0:0:0:0:0:0:0:1"), Some(IpAddress::V6(1)));
    assert_eq!(ip_text(&parse("0:0:0:0:0:0:0:1").unwrap()), "::1");
    // the mixed spelling with an embedded dotted quad is outside the
    // grammar here
    assert_eq!(parse("::ffff:1.2.3.4"), None);
}

#[test]
fn parses_networks() {
    let n = parse_network(&chars_vec("10.0.0.0/8")).expect("network should parse");
    assert!(n.contains(&parse("10.1.2.3").unwrap()));
    assert!(!n.contains(&parse("11.0.0.0").unwrap()));
    assert!(!n.contains(&parse("::1").unwrap()));

    let all = parse_network(&chars_vec("0.0.0.0/0")).expect("network should parse");
    assert!(all.contains(&parse("8.8.8.8").unwrap()));

    let host = parse_network(&chars_vec("1.2.3.4/32")).expect("network should parse");
    assert!(host.contains(&parse("1.2.3.4").unwrap()));
    assert!(!host.contains(&parse("1.2.3.5").unwrap()));

    let v6 = parse_network(&chars_vec("2001:db8::/32")).expect("network should parse");
    assert!(v6.contains(&parse("2001:db8::42").unwrap()));
    assert!(!v6.contains(&parse("2001:db9::42").unwrap()));
}

#[test]
fn rejects_malformed_networks() {
    assert_eq!(parse_network(&chars_vec("10.0.0.0")), None);
    assert_eq!(parse_network(&chars_vec("10.0.0.0/33")), None);
    assert_eq!(parse_network(&chars_vec("::/129")), None);
    assert_eq!(parse_network(&chars_vec("abc/8")), None);
    assert_eq!(parse_network(&chars_vec("10.0.0.0/8/8")), None);
    assert_eq!(parse_network(&chars_vec("10.0.0.0/")), None);
}
