use presence::parser::{parse, parse_message, Action};
use presence::{Error, Timestamp};

fn line(host: &str, program: &str, timestamp: &str, message: &str) -> String {
    format!(
        "{{\"host\":\"{}\",\"program\":\"{}\",\"timestamp\":\"{}\",\"message\":\"{}\"}}",
        host, program, timestamp, message
    )
}

#[test]
fn associated_line_produces_event() {
    let l = line(
        "den-ap",
        "hostapd",
        "2024-01-01T09:42:46Z",
        "wl1.1: STA 32:42:fd:88:86:0c IEEE 802.11: associated",
    );
    let ev = parse(&l).unwrap().unwrap();
    assert_eq!(ev.hostname, "den-ap");
    assert_eq!(ev.interface, "wl1.1");
    assert_eq!(ev.mac, "32:42:fd:88:86:0c");
    assert_eq!(ev.action, Action::Associated);
    assert_eq!(ev.timestamp, Timestamp { secs: 1704102166, nanos: 0 });
}

#[test]
fn other_program_is_not_applicable() {
    let l = line(
        "den-ap",
        "other-daemon",
        "2024-01-01T09:42:46Z",
        "wl1.1: STA 32:42:fd:88:86:0c IEEE 802.11: associated",
    );
    assert_eq!(parse(&l).unwrap(), None);
}

#[test]
fn accounting_session_is_no_event() {
    let r = parse_message("eth10: STA 04:17:b6:37:96:dc RADIUS: starting accounting session 5F3F4F6F")
        .unwrap();
    assert_eq!(r.0, "eth10");
    assert_eq!(r.1, "04:17:b6:37:96:dc");
    assert_eq!(r.2, None);
}

#[test]
fn accounting_session_line_is_ok_none() {
    let l = line(
        "den-ap",
        "hostapd",
        "2024-01-01T09:42:46Z",
        "eth10: STA 04:17:b6:37:96:dc RADIUS: starting accounting session 5F3F4F6F-00000000",
    );
    assert_eq!(parse(&l).unwrap(), None);
}

#[test]
fn bad_hardware_address_is_grammar_error() {
    let r = parse_message("wl1.1: STA zz:bad:ad:dr:es:sx IEEE 802.11: associated");
    assert!(matches!(r, Err(Error::Parse(_))));
    let l = line(
        "den-ap",
        "hostapd",
        "2024-01-01T09:42:46Z",
        "wl1.1: STA zz:bad:ad:dr:es:sx IEEE 802.11: associated",
    );
    assert!(matches!(parse(&l), Err(Error::Parse(_))));
}

#[test]
fn uppercase_address_is_canonicalized() {
    let r = parse_message("wl0: STA AA:BB:CC:DD:EE:FF IEEE 802.11: associated").unwrap();
    assert_eq!(r.1, "aa:bb:cc:dd:ee:ff");
    let lower = parse_message("wl0: STA aa:bb:cc:dd:ee:ff IEEE 802.11: associated").unwrap();
    assert_eq!(r.1, lower.1);
    let mixed = parse_message("wl0: STA aA:bB:Cc:Dd:9e:0F IEEE 802.11: associated").unwrap();
    assert_eq!(mixed.1, "aa:bb:cc:dd:9e:0f");
}

#[test]
fn disassociated_and_wpa_phrases() {
    let r = parse_message("wl1.1: STA 32:42:fd:88:86:0c IEEE 802.11: disassociated").unwrap();
    assert_eq!(r.2, Some(Action::Disassociated));
    let r = parse_message("wl1.1: STA 32:42:fd:88:86:0c WPA: pairwise key handshake completed (RSN)")
        .unwrap();
    assert_eq!(r.2, Some(Action::Observed));
    let r = parse_message("eth10: STA 04:17:b6:37:96:dc WPA: group key handshake completed (RSN)")
        .unwrap();
    assert_eq!(r.2, Some(Action::Observed));
}

#[test]
fn trailing_text_after_phrase_is_accepted() {
    let r = parse_message("wl0: STA 00:11:22:33:44:55 IEEE 802.11: associated (aid 3)").unwrap();
    assert_eq!(r.2, Some(Action::Associated));
}

#[test]
fn extra_blanks_before_phrase_are_accepted() {
    let r = parse_message("wl0: STA 00:11:22:33:44:55   IEEE 802.11: associated").unwrap();
    assert_eq!(r.2, Some(Action::Associated));
    let r = parse_message("wl0: STA 00:11:22:33:44:55 \t IEEE 802.11: disassociated").unwrap();
    assert_eq!(r.2, Some(Action::Disassociated));
}

#[test]
fn unknown_phrase_is_grammar_error() {
    let r = parse_message("wl0: STA 00:11:22:33:44:55 IEEE 802.11: authenticated");
    assert!(matches!(r, Err(Error::Parse(_))));
}

#[test]
fn missing_delimiter_is_grammar_error() {
    assert!(matches!(parse_message("no station notice here"), Err(Error::Parse(_))));
    assert!(matches!(parse_message(""), Err(Error::Parse(_))));
}

#[test]
fn empty_interface_is_accepted() {
    let r = parse_message(": STA 00:11:22:33:44:55 IEEE 802.11: associated").unwrap();
    assert_eq!(r.0, "");
}

#[test]
fn wrong_address_grouping_is_grammar_error() {
    assert!(parse_message("wl0: STA 001:122:33:44:55 IEEE 802.11: associated").is_err());
    assert!(parse_message("wl0: STA 00-11-22-33-44-55 IEEE 802.11: associated").is_err());
    assert!(parse_message("wl0: STA 00:11:22:33:44 IEEE 802.11: associated").is_err());
    assert!(parse_message("wl0: STA 00:11:22:33:44:556 IEEE 802.11: associated").is_err());
}

#[test]
fn address_must_be_followed_by_blank() {
    assert!(parse_message("wl0: STA 00:11:22:33:44:55IEEE 802.11: associated").is_err());
}

#[test]
fn invalid_json_is_decode_error() {
    assert!(matches!(parse("not json at all"), Err(Error::Json(_))));
    assert!(matches!(parse("{\"host\":\"a\""), Err(Error::Json(_))));
}

#[test]
fn missing_field_is_decode_error() {
    let l = "{\"host\":\"a\",\"program\":\"hostapd\",\"timestamp\":\"2024-01-01T00:00:00Z\"}";
    assert!(matches!(parse(l), Err(Error::Json(_))));
}

#[test]
fn mistyped_field_is_decode_error() {
    let l = "{\"host\":7,\"program\":\"hostapd\",\"timestamp\":\"2024-01-01T00:00:00Z\",\"message\":\"m\"}";
    assert!(matches!(parse(l), Err(Error::Json(_))));
}

#[test]
fn bad_timestamp_is_decode_error() {
    let l = line("a", "hostapd", "not-a-time", "m");
    assert!(matches!(parse(&l), Err(Error::Json(_))));
    let l = "{\"host\":\"a\",\"program\":\"hostapd\",\"timestamp\":1704102166,\"message\":\"m\"}";
    assert!(matches!(parse(l), Err(Error::Json(_))));
}

#[test]
fn bad_timestamp_beats_program_filter() {
    // decoding, timestamp included, happens before the program is examined
    let l = line("a", "other-daemon", "not-a-time", "m");
    assert!(matches!(parse(&l), Err(Error::Json(_))));
}

#[test]
fn extra_envelope_keys_are_ignored() {
    let l = "{\"host\":\"den-ap\",\"program\":\"hostapd\",\"timestamp\":\"2024-01-01T09:42:46Z\",\"message\":\"wl0: STA 00:11:22:33:44:55 IEEE 802.11: associated\",\"facility\":\"daemon\",\"pid\":123}";
    let ev = parse(l).unwrap().unwrap();
    assert_eq!(ev.mac, "00:11:22:33:44:55");
}

#[test]
fn timestamp_with_offset_and_fraction() {
    let l = line(
        "a",
        "hostapd",
        "2024-01-01T10:42:46.5+01:00",
        "wl0: STA 00:11:22:33:44:55 IEEE 802.11: associated",
    );
    let ev = parse(&l).unwrap().unwrap();
    // same instant as 09:42:46.5 UTC
    assert_eq!(ev.timestamp, Timestamp { secs: 1704102166, nanos: 500_000_000 });
}

#[test]
fn parsing_is_deterministic() {
    let l = line(
        "den-ap",
        "hostapd",
        "2024-01-01T09:42:46Z",
        "wl1.1: STA 32:42:fd:88:86:0c IEEE 802.11: associated",
    );
    let a = parse(&l).unwrap().unwrap();
    let b = parse(&l).unwrap().unwrap();
    assert_eq!(a.mac, b.mac);
    assert_eq!(a.interface, b.interface);
    assert_eq!(a.hostname, b.hostname);
    assert_eq!(a.action, b.action);
    assert_eq!(a.timestamp, b.timestamp);
}
