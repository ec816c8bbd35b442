use yeelight_core::bulb::Bulb;
use yeelight_core::discovery::create_new_bulb;
use yeelight_core::discovery::location_address;
use yeelight_core::headers::parse_response;

#[test]
fn new_bulb_is_empty() {
    let b = Bulb::new_bulb();
    assert_eq!(b.get_id(), "");
    assert_eq!(b.get_location(), "");
    assert_eq!(b.power, "");
    assert_eq!(b.name, "");
}

#[test]
fn location_header_yields_address() {
    // splitting the advertised Location strips the schema prefix
    assert_eq!(location_address("yeelight://192.168.1.5:55443"), "192.168.1.5:55443");
}

#[test]
fn location_without_separator_yields_empty_address() {
    assert_eq!(location_address("192.168.1.5:55443"), "");
    assert_eq!(location_address(""), "");
    assert_eq!(location_address("/"), "");
}

#[test]
fn location_takes_everything_after_first_separator() {
    assert_eq!(location_address("a://b//c"), "b//c");
}

#[test]
fn record_from_full_reply() {
    let text = "HTTP/1.1 200 OK\nLocation: yeelight://192.168.1.5:55443\nid: 0x0015\npower: on\nbright: 99\ncolor_mode: 2\nrgb: 16711680\nct: 4000\nhue: 100\nsat: 35\nname: desk";
    let pairs = parse_response(text);
    let b = create_new_bulb(&pairs);
    assert_eq!(b.get_location(), "192.168.1.5:55443");
    assert_eq!(b.get_id(), "0x0015");
    assert_eq!(b.power, "on");
    assert_eq!(b.bright, "99");
    assert_eq!(b.color_mode, "2");
    assert_eq!(b.rgb, "16711680");
    assert_eq!(b.ct, "4000");
    assert_eq!(b.hue, "100");
    assert_eq!(b.sat, "35");
    assert_eq!(b.name, "desk");
}

#[test]
fn unrecognized_headers_are_ignored() {
    let pairs = parse_response("Server: POSIX UPnP/1.0\nid: 7\nCache-Control: max-age=3600");
    let b = create_new_bulb(&pairs);
    assert_eq!(b.get_id(), "7");
    assert_eq!(b.get_location(), "");
    assert_eq!(b.name, "");
}

#[test]
fn missing_location_leaves_record_commandless_but_kept() {
    let pairs = parse_response("id: 9\npower: off");
    let b = create_new_bulb(&pairs);
    assert_eq!(b.get_id(), "9");
    assert_eq!(b.power, "off");
    assert_eq!(b.get_location(), "");
}

#[test]
fn header_names_match_case_sensitively() {
    let pairs = parse_response("ID: 9\nPower: on");
    let b = create_new_bulb(&pairs);
    assert_eq!(b.get_id(), "");
    assert_eq!(b.power, "");
}
