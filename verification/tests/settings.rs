use reqcore::config::{port_or_default, slot_name, Config};
use reqcore::microwave::{calculate_microwave_time, resolve_microwave, MicrowaveQuery};
use reqcore::uuidgen::fresh_uuid;

#[test]
fn port_text_parses_or_falls_back() {
    assert_eq!(port_or_default("8080"), 8080);
    assert_eq!(port_or_default("80"), 80);
    assert_eq!(port_or_default("0080"), 80);
    assert_eq!(port_or_default("+443"), 443);
    assert_eq!(port_or_default("65535"), 65535);
    assert_eq!(port_or_default("65536"), 8080);
    assert_eq!(port_or_default("999999999999"), 8080);
    assert_eq!(port_or_default(""), 8080);
    assert_eq!(port_or_default("abc"), 8080);
    assert_eq!(port_or_default("80a"), 8080);
    assert_eq!(port_or_default("-1"), 8080);
    assert_eq!(port_or_default("+"), 8080);
}

#[test]
fn slots_are_named_by_port() {
    assert_eq!(slot_name(8080), "blue");
    assert_eq!(slot_name(8081), "green");
    assert_eq!(slot_name(3000), "unknown");
    let config = Config { port: 8081, website_domain: "localhost".to_string() };
    assert_eq!(slot_name(config.port), "green");
}

#[test]
fn microwave_scales_time_and_power() {
    // a 1100-watt box for 60 seconds at full power, on a 900-watt microwave:
    // power stays capped at 10 and the time stretches to 1:13
    let r = calculate_microwave_time(1100, 60, 10, 900);
    assert_eq!(r.power, 10);
    assert_eq!(r.minutes, 1);
    assert_eq!(r.seconds, 13);

    // a 700-watt box for 90 seconds at power 7, on a 1000-watt microwave:
    // 7 * 700 / 1000 rounds to power 5, and 90 s * (490 / 500) = 88.2 s
    let r = calculate_microwave_time(700, 90, 7, 1000);
    assert_eq!(r.power, 5);
    assert_eq!(r.minutes, 1);
    assert_eq!(r.seconds, 28);

    // equal wattages at full power change nothing
    let r = calculate_microwave_time(1000, 75, 10, 1000);
    assert_eq!(r.power, 10);
    assert_eq!(r.minutes, 1);
    assert_eq!(r.seconds, 15);
}

#[test]
fn microwave_power_rounds_half_away() {
    // 10 * 450 / 1000 = 4.5, which rounds to 5
    let r = calculate_microwave_time(450, 60, 10, 1000);
    assert_eq!(r.power, 5);
}

#[test]
fn microwave_defaults_fill_in() {
    let q = MicrowaveQuery { bw: None, bm: None, bs: None, bp: None, w: None };
    let s = resolve_microwave(&q);
    assert_eq!(s.box_wattage, 1100);
    assert_eq!(s.box_minutes, 1);
    assert_eq!(s.box_seconds, 0);
    assert_eq!(s.box_power, 10);
    assert_eq!(s.your_wattage, 900);
    let r = s.result.expect("a default query has a setting");
    assert_eq!(r.power, 10);
    assert_eq!(r.minutes, 1);
    assert_eq!(r.seconds, 13);
}

#[test]
fn microwave_clamps_power_and_skips_empty_input() {
    let q = MicrowaveQuery { bw: Some(1000), bm: Some(1), bs: Some(0), bp: Some(99), w: Some(1000) };
    let s = resolve_microwave(&q);
    assert_eq!(s.box_power, 10);

    let q = MicrowaveQuery { bw: Some(1000), bm: Some(1), bs: Some(0), bp: Some(0), w: Some(1000) };
    let s = resolve_microwave(&q);
    assert_eq!(s.box_power, 1);

    let q = MicrowaveQuery { bw: Some(1000), bm: Some(0), bs: Some(0), bp: None, w: Some(1000) };
    let s = resolve_microwave(&q);
    assert!(s.result.is_none());

    let q = MicrowaveQuery { bw: Some(0), bm: Some(1), bs: Some(0), bp: None, w: Some(1000) };
    let s = resolve_microwave(&q);
    assert!(s.result.is_none());
}

#[test]
fn fresh_uuids_have_the_hyphenated_shape() {
    let a = fresh_uuid();
    assert_eq!(a.len(), 36);
    let chars: Vec<char> = a.chars().collect();
    for (i, c) in chars.iter().enumerate() {
        match i {
            8 | 13 | 18 | 23 => assert_eq!(*c, '-'),
            14 => assert_eq!(*c, '4'),
            _ => assert!(c.is_ascii_hexdigit() && !c.is_ascii_uppercase(), "bad digit at {i}"),
        }
    }
}

#[test]
fn fresh_uuids_differ() {
    let a = fresh_uuid();
    let b = fresh_uuid();
    assert_ne!(a, b);
}
