use reqcore::ip::{parse_ip, IpAddress};
use reqcore::relay::{
    get_private_relay_range, relay_message, FetchFailure, LookupError, RangeError, RangeTable,
};
use reqcore::strutil::chars_vec;

fn ip(s: &str) -> IpAddress {
    parse_ip(&chars_vec(s)).expect("address should parse")
}

#[test]
fn parses_vendor_style_table() {
    let csv = "172.224.224.0/31,US,US-CA,LOSALTOS,\n2a02:26f7:c9c0::/44,IT,IT-25,MILAN,\n";
    let table = RangeTable::parse(csv).expect("table should parse");
    assert_eq!(
        table.find(&ip("172.224.224.1")),
        Some("US,US-CA,LOSALTOS,".to_string())
    );
    assert_eq!(
        table.find(&ip("2a02:26f7:c9c0::17")),
        Some("IT,IT-25,MILAN,".to_string())
    );
    assert_eq!(table.find(&ip("172.224.224.2")), None);
    assert_eq!(table.find(&ip("8.8.8.8")), None);
}

#[test]
fn first_matching_range_wins() {
    // overlapping ranges on purpose: the narrower one comes second and must
    // not be chosen
    let csv = "10.0.0.0/8,first\n10.1.0.0/16,second\n";
    let table = RangeTable::parse(csv).expect("table should parse");
    assert_eq!(table.find(&ip("10.1.2.3")), Some("first".to_string()));

    let csv = "10.1.0.0/16,narrow\n10.0.0.0/8,wide\n";
    let table = RangeTable::parse(csv).expect("table should parse");
    assert_eq!(table.find(&ip("10.1.2.3")), Some("narrow".to_string()));
    assert_eq!(table.find(&ip("10.2.0.1")), Some("wide".to_string()));
}

#[test]
fn blank_lines_and_crlf_are_tolerated() {
    let csv = "10.0.0.0/8,a\r\n\r\n192.168.0.0/16,b\r\n";
    let table = RangeTable::parse(csv).expect("table should parse");
    assert_eq!(table.find(&ip("192.168.3.4")), Some("b".to_string()));
}

#[test]
fn malformed_row_is_a_hard_error() {
    assert!(matches!(
        RangeTable::parse("10.0.0.0/8,ok\nnot-a-cidr,broken\n"),
        Err(RangeError::BadRow)
    ));
    assert!(matches!(
        RangeTable::parse("10.0.0.0,missing-prefix\n"),
        Err(RangeError::BadRow)
    ));
    assert!(matches!(
        RangeTable::parse("10.0.0.0/33,bad-prefix\n"),
        Err(RangeError::BadRow)
    ));
}

#[test]
fn descriptor_is_the_remaining_columns() {
    let csv = "10.0.0.0/8\n192.168.0.0/16,only\n";
    let table = RangeTable::parse(csv).expect("table should parse");
    // a row with no metadata columns has an empty descriptor
    assert_eq!(table.find(&ip("10.9.9.9")), Some(String::new()));
    assert_eq!(table.find(&ip("192.168.0.9")), Some("only".to_string()));
}

#[test]
fn fetch_failure_is_a_distinguishable_error() {
    let r = get_private_relay_range(Err(FetchFailure::Status(503)), &ip("1.2.3.4"));
    assert_eq!(r, Err(LookupError::Fetch(FetchFailure::Status(503))));

    let r = get_private_relay_range(
        Err(FetchFailure::Transport("connection refused".to_string())),
        &ip("1.2.3.4"),
    );
    assert_eq!(
        r,
        Err(LookupError::Fetch(FetchFailure::Transport(
            "connection refused".to_string()
        )))
    );
}

#[test]
fn fetched_bytes_are_looked_up() {
    let body = b"172.224.224.0/31,US,US-CA,LOSALTOS,\n".to_vec();
    let r = get_private_relay_range(Ok(body), &ip("172.224.224.0"));
    assert_eq!(r, Ok(Some("US,US-CA,LOSALTOS,".to_string())));

    let body = b"172.224.224.0/31,US,US-CA,LOSALTOS,\n".to_vec();
    let r = get_private_relay_range(Ok(body), &ip("9.9.9.9"));
    assert_eq!(r, Ok(None));
}

#[test]
fn corrupt_fetched_data_is_a_hard_error() {
    let r = get_private_relay_range(Ok(b"oops,not,a,table\n".to_vec()), &ip("1.2.3.4"));
    assert_eq!(r, Err(LookupError::Data(RangeError::BadRow)));

    let r = get_private_relay_range(Ok(vec![0xff, 0xfe, 0x80]), &ip("1.2.3.4"));
    assert_eq!(r, Err(LookupError::Data(RangeError::NotText)));
}

#[test]
fn lookup_outcome_renders_as_one_line() {
    let a = ip("203.0.113.50");
    assert_eq!(
        relay_message(&a, &None),
        "203.0.113.50 is not iCloud Private Relay"
    );
    assert_eq!(
        relay_message(&a, &Some("US,US-CA,LOSALTOS,".to_string())),
        "203.0.113.50: US,US-CA,LOSALTOS,"
    );
}
