use pulse::network::{parse_ping_reply, pick_adapter, ping_due, AdapterTotals, NetTracker, PingReply};

fn adapter(name: &str, received: u64, transmitted: u64) -> AdapterTotals {
    AdapterTotals { name: name.to_string(), received, transmitted }
}

#[test]
fn pick_adapter_prefers_wireless_and_skips_virtual() {
    let adapters = vec![
        adapter("Loopback Pseudo-Interface 1", 1 << 40, 1 << 40),
        adapter("Ethernet", 100, 200),
        adapter("vEthernet (Default Switch)", 1000, 1000),
        adapter("Wi-Fi", 1, 1),
        adapter("Hyper-V Virtual Ethernet Adapter", 5000, 0),
    ];
    let (name, rx, tx) = pick_adapter(&adapters);
    assert_eq!((name.as_str(), rx, tx), ("Wi-Fi", 1, 1));
}

#[test]
fn pick_adapter_takes_busiest_wired() {
    let adapters = vec![adapter("Ethernet", 10, 10), adapter("Ethernet 2", 100, 5)];
    assert_eq!(pick_adapter(&adapters), ("Ethernet 2".to_string(), 100, 5));
}

#[test]
fn pick_adapter_first_wins_ties() {
    let adapters = vec![adapter("Ethernet", 10, 10), adapter("Ethernet 2", 20, 0)];
    assert_eq!(pick_adapter(&adapters), ("Ethernet".to_string(), 10, 10));
}

#[test]
fn pick_adapter_without_traffic_gives_na() {
    let adapters = vec![adapter("Ethernet", 0, 0), adapter("loopback", 5, 5)];
    assert_eq!(pick_adapter(&adapters), ("N/A".to_string(), 0, 0));
    assert_eq!(pick_adapter(&vec![]), ("N/A".to_string(), 0, 0));
}

#[test]
fn pick_adapter_wireless_with_no_traffic_still_wins() {
    let adapters = vec![adapter("Ethernet", 1 << 40, 0), adapter("WLAN", 0, 0)];
    assert_eq!(pick_adapter(&adapters), ("WLAN".to_string(), 0, 0));
}

#[test]
fn tracker_reports_deltas() {
    let mut t = NetTracker::new(&vec![adapter("Ethernet", 1000, 500)]);
    assert_eq!(t.adapter, "Ethernet");
    let d = t.observe(&vec![adapter("Ethernet", 1600, 700)]);
    assert_eq!((d.adapter.as_str(), d.received, d.transmitted), ("Ethernet", 600, 200));
    assert_eq!((t.last_received, t.last_transmitted), (1600, 700));
    let d = t.observe(&vec![adapter("Ethernet", 100, 700)]);
    assert_eq!((d.received, d.transmitted), (0, 0));
}

#[test]
fn tracker_keeps_following_adapter_while_listed() {
    let mut t = NetTracker::new(&vec![adapter("Ethernet", 1000, 500)]);
    let d = t.observe(&vec![adapter("Wi-Fi", 5, 5), adapter("Ethernet", 1100, 600)]);
    assert_eq!((d.adapter.as_str(), d.received, d.transmitted), ("Ethernet", 100, 100));
    assert_eq!(t.adapter, "Ethernet");
}

#[test]
fn tracker_switches_when_adapter_disappears() {
    let mut t = NetTracker::new(&vec![adapter("Ethernet", 1000, 500)]);
    let d = t.observe(&vec![adapter("Wi-Fi", 3000, 800)]);
    assert_eq!((d.adapter.as_str(), d.received, d.transmitted), ("Wi-Fi", 2000, 300));
    assert_eq!(t.adapter, "Wi-Fi");
}

#[test]
fn ping_schedule() {
    assert!(!ping_due(4999));
    assert!(ping_due(5000));
    assert!(ping_due(60000));
}

fn reading(text: &str) -> Option<Option<String>> {
    match parse_ping_reply(text) {
        PingReply::Millis(t) => Some(Some(t)),
        PingReply::BelowOneMs => Some(None),
        PingReply::NoReading => None,
    }
}

#[test]
fn ping_reply_time_equals() {
    let out = "Pinging 1.1.1.1 with 32 bytes of data:\r\nReply from 1.1.1.1: bytes=32 time=12ms TTL=57\r\n";
    assert_eq!(reading(out), Some(Some("12".to_string())));
    assert_eq!(reading("Reply: TIME=3.5ms"), Some(Some("3.5".to_string())));
}

#[test]
fn ping_reply_time_below_one() {
    assert_eq!(reading("Reply from 1.1.1.1: bytes=32 time<1ms TTL=57"), Some(None));
}

#[test]
fn ping_reply_unparsable_numbers_are_skipped() {
    assert_eq!(reading("time=ms time=1.2.3ms time<1ms"), Some(None));
    assert_eq!(reading("time=. time=7"), Some(Some("7".to_string())));
    assert_eq!(reading("time=.5"), Some(Some(".5".to_string())));
}

#[test]
fn ping_reply_without_time() {
    assert_eq!(reading("Request timed out."), None);
    assert_eq!(reading(""), None);
    assert_eq!(reading("   \n\t "), None);
}
