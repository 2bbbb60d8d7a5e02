use reqcore::extractors::{get_real_ip, get_real_proto, is_trusted_proxy};
use reqcore::ip::IpAddress;
use reqcore::strutil::chars_vec;

fn hdr(name: &str, value: &str) -> (String, String) {
    (name.to_string(), value.to_string())
}

fn ip(s: &str) -> IpAddress {
    reqcore::ip::parse_ip(&chars_vec(s)).expect("address should parse")
}

fn ip_str(a: &IpAddress) -> String {
    reqcore::ip::ip_text(a)
}

#[test]
fn get_real_ip_uses_x_forwarded_for_from_trusted_proxy() {
    let headers = vec![hdr("x-forwarded-for", "203.0.113.50, 192.168.1.1")];
    let peer = ip("127.0.0.1");
    let result = get_real_ip(&headers, &peer);
    assert_eq!(ip_str(&result), "203.0.113.50");
}

#[test]
fn get_real_ip_falls_back_to_peer_addr_when_no_headers() {
    let headers: Vec<(String, String)> = Vec::new();
    let peer = ip("127.0.0.1");
    let result = get_real_ip(&headers, &peer);
    assert_eq!(ip_str(&result), "127.0.0.1");
}

#[test]
fn get_real_ip_handles_ipv6_from_trusted_proxy() {
    let headers = vec![hdr("x-forwarded-for", "2001:db8::1")];
    let peer = ip("127.0.0.1");
    let result = get_real_ip(&headers, &peer);
    assert_eq!(ip_str(&result), "2001:db8::1");
}

#[test]
fn get_real_ip_ignores_invalid_ip_in_header() {
    let headers = vec![hdr("x-forwarded-for", "not-an-ip")];
    let peer = ip("127.0.0.1");
    let result = get_real_ip(&headers, &peer);
    assert_eq!(ip_str(&result), "127.0.0.1");
}

#[test]
fn get_real_ip_ignores_headers_from_untrusted_source() {
    let headers = vec![hdr("x-forwarded-for", "8.8.8.8")];
    let peer = ip("203.0.113.50");
    let result = get_real_ip(&headers, &peer);
    assert_eq!(ip_str(&result), "203.0.113.50");
}

#[test]
fn get_real_ip_trusts_headers_from_ipv6_loopback() {
    let headers = vec![hdr("x-forwarded-for", "203.0.113.50")];
    let peer = ip("::1");
    let result = get_real_ip(&headers, &peer);
    assert_eq!(ip_str(&result), "203.0.113.50");
}

#[test]
fn get_real_proto_uses_header_from_trusted_proxy() {
    let headers = vec![hdr("x-forwarded-proto", "https")];
    let peer = ip("127.0.0.1");
    let result = get_real_proto(&headers, &peer);
    assert_eq!(result, "https");
}

#[test]
fn get_real_proto_falls_back_to_http_when_no_header() {
    let headers: Vec<(String, String)> = Vec::new();
    let peer = ip("127.0.0.1");
    let result = get_real_proto(&headers, &peer);
    assert_eq!(result, "http");
}

#[test]
fn get_real_proto_ignores_header_from_untrusted_source() {
    let headers = vec![hdr("x-forwarded-proto", "https")];
    let peer = ip("203.0.113.50");
    let result = get_real_proto(&headers, &peer);
    assert_eq!(result, "http");
}

#[test]
fn get_real_proto_trusts_header_from_ipv6_loopback() {
    let headers = vec![hdr("x-forwarded-proto", "https")];
    let peer = ip("::1");
    let result = get_real_proto(&headers, &peer);
    assert_eq!(result, "https");
}

#[test]
fn trusted_proxy_is_exactly_loopback() {
    assert!(is_trusted_proxy(&ip("127.0.0.1")));
    assert!(is_trusted_proxy(&ip("127.255.0.3")));
    assert!(is_trusted_proxy(&ip("::1")));
    assert!(!is_trusted_proxy(&ip("126.0.0.1")));
    assert!(!is_trusted_proxy(&ip("128.0.0.1")));
    assert!(!is_trusted_proxy(&ip("::2")));
    assert!(!is_trusted_proxy(&ip("8.8.8.8")));
}

#[test]
fn forwarded_header_names_match_any_case() {
    let headers = vec![hdr("X-Forwarded-For", "203.0.113.50")];
    let peer = ip("127.0.0.1");
    let result = get_real_ip(&headers, &peer);
    assert_eq!(ip_str(&result), "203.0.113.50");
}
