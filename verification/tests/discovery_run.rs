use yeelight_core::discovery::get_bulbs;
use yeelight_core::discovery::multicast_address;
use yeelight_core::discovery::Discovery;
use yeelight_core::discovery::DiscoveryError;
use yeelight_core::discovery::DiscoveryPhase;

#[test]
fn zero_replies_fail_fatally() {
    let r = get_bulbs(&Vec::new());
    assert!(matches!(r, Err(DiscoveryError::DiscoveryEmpty)));
}

#[test]
fn duplicate_id_keeps_first_reply() {
    let replies = vec![
        String::from("id: 0x1\npower: on"),
        String::from("id: 0x1\npower: off"),
    ];
    let bulbs = get_bulbs(&replies).unwrap();
    assert_eq!(bulbs.len(), 1);
    assert_eq!(bulbs[0].get_id(), "0x1");
    assert_eq!(bulbs[0].power, "on");
}

#[test]
fn records_keep_first_seen_order() {
    let replies = vec![
        String::from("id: b"),
        String::from("id: a"),
        String::from("id: b"),
        String::from("id: c"),
    ];
    let bulbs = get_bulbs(&replies).unwrap();
    let ids: Vec<&str> = bulbs.iter().map(|b| b.get_id().as_str()).collect();
    assert_eq!(ids, ["b", "a", "c"]);
}

#[test]
fn reply_without_id_still_yields_a_record() {
    let bulbs = get_bulbs(&vec![String::from("power: on")]).unwrap();
    assert_eq!(bulbs.len(), 1);
    assert_eq!(bulbs[0].get_id(), "");
}

#[test]
fn query_text_is_fixed() {
    let mut d = Discovery::new();
    let q = d.query();
    assert_eq!(
        q,
        "M-SEARCH * HTTP/1.1\r\nHOST: 239.255.255.250:1982\r\nMAN: \"ssdp:discover\"\r\nST: wifi_bulb"
    );
    assert_eq!(multicast_address(), "239.255.255.250:1982");
}

#[test]
fn run_phases_in_order() {
    let mut d = Discovery::new();
    assert_eq!(d.current_phase(), DiscoveryPhase::Idle);
    let _q = d.query();
    assert_eq!(d.current_phase(), DiscoveryPhase::Querying);
    d.query_sent();
    assert_eq!(d.current_phase(), DiscoveryPhase::Collecting);
    d.on_datagram(b"id: 1");
    assert_eq!(d.current_phase(), DiscoveryPhase::Collecting);
    d.on_timeout();
    assert_eq!(d.current_phase(), DiscoveryPhase::Closed);
}

#[test]
fn run_with_no_datagrams_fails() {
    let mut d = Discovery::new();
    let _q = d.query();
    d.query_sent();
    d.on_timeout();
    assert!(matches!(d.finish(), Err(DiscoveryError::DiscoveryEmpty)));
}

#[test]
fn malformed_datagrams_are_dropped_but_one_good_reply_succeeds() {
    let mut d = Discovery::new();
    let _q = d.query();
    d.query_sent();
    d.on_datagram(&[0xff, 0xfe, 0x80]);
    d.on_datagram(b"Location: yeelight://10.0.0.2:55443\nid: 0x9");
    d.on_datagram(&[0xc0, 0x20]);
    d.on_timeout();
    let bulbs = d.finish().unwrap();
    assert_eq!(bulbs.len(), 1);
    assert_eq!(bulbs[0].get_id(), "0x9");
    assert_eq!(bulbs[0].get_location(), "10.0.0.2:55443");
}

#[test]
fn run_with_only_malformed_datagrams_fails() {
    let mut d = Discovery::new();
    let _q = d.query();
    d.query_sent();
    d.on_datagram(&[0xff]);
    d.on_datagram(&[0xfe, 0xff]);
    d.on_timeout();
    assert!(matches!(d.finish(), Err(DiscoveryError::DiscoveryEmpty)));
}

#[test]
fn staggered_replies_all_collected_before_timeout() {
    // each reply re-arms the wait: replies arriving one after another are all
    // kept, and only the final silence closes the run
    let mut d = Discovery::new();
    let _q = d.query();
    d.query_sent();
    d.on_datagram(b"id: first");
    d.on_datagram(b"id: second");
    d.on_datagram(b"id: third");
    d.on_timeout();
    let bulbs = d.finish().unwrap();
    let ids: Vec<&str> = bulbs.iter().map(|b| b.get_id().as_str()).collect();
    assert_eq!(ids, ["first", "second", "third"]);
}
