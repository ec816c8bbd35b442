use yeelight_core::headers::parse_line;
use yeelight_core::headers::parse_response;

fn value_of<'a>(pairs: &'a [(String, String)], key: &str) -> Option<&'a str> {
    pairs.iter().find(|p| p.0 == key).map(|p| p.1.as_str())
}

#[test]
fn parse_line_splits_at_first_colon() {
    let r = parse_line("Location: yeelight://192.168.1.5:55443").unwrap();
    assert_eq!(r.0, "Location");
    assert_eq!(r.1, "yeelight://192.168.1.5:55443");
}

#[test]
fn parse_line_without_colon_is_skipped() {
    assert!(parse_line("HTTP/1.1 200 OK").is_none());
    assert!(parse_line("").is_none());
}

#[test]
fn parse_line_trims_key_and_value() {
    let r = parse_line("  power  :\t on \r").unwrap();
    assert_eq!(r.0, "power");
    assert_eq!(r.1, "on");
}

#[test]
fn parse_line_keeps_later_colons_in_value() {
    let r = parse_line("HOST: 239.255.255.250:1982").unwrap();
    assert_eq!(r.0, "HOST");
    assert_eq!(r.1, "239.255.255.250:1982");
}

#[test]
fn parse_response_counts_distinct_keys() {
    // four colon-containing lines with three distinct keys, two colon-free
    // lines: the mapping has exactly three entries.
    let text = "HTTP/1.1 200 OK\nid: 1\npower: on\nbright: 50\npower: off\nnoise";
    let pairs = parse_response(text);
    assert_eq!(pairs.len(), 3);
    assert_eq!(value_of(&pairs, "id"), Some("1"));
    assert_eq!(value_of(&pairs, "bright"), Some("50"));
}

#[test]
fn parse_response_last_write_wins() {
    let pairs = parse_response("power: on\npower: off");
    assert_eq!(pairs.len(), 1);
    assert_eq!(value_of(&pairs, "power"), Some("off"));
}

#[test]
fn parse_response_skips_colon_free_lines() {
    let pairs = parse_response("no colon here\n\nanother line");
    assert_eq!(pairs.len(), 0);
}

#[test]
fn parse_response_handles_crlf_endings() {
    let pairs = parse_response("id: 0x1234\r\nname: desk\r\n");
    assert_eq!(pairs.len(), 2);
    assert_eq!(value_of(&pairs, "id"), Some("0x1234"));
    assert_eq!(value_of(&pairs, "name"), Some("desk"));
}

#[test]
fn parse_response_of_empty_text_is_empty() {
    assert_eq!(parse_response("").len(), 0);
}
