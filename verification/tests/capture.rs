//! Interfaces, backends and the sink.
use nlm::capture::{
    after_read, complain, dumpcap_name, find_dumpcap, select_backend, start_complaint, Backend,
    CaptureError, NextStep, Received, StatsSink,
};
use nlm::consts::BATCH_NS;
use nlm::filter::{parse_vlans, FrameFilter};
use nlm::iface::{
    adapters_as_interfaces, attach_link_speeds, dumpcap_interfaces, link_speed_mbps, linux_interfaces,
    list_interfaces, parse_dumpcap_line, parse_dumpcap_listing, parse_speed, resolve, Adapter,
    Interface, Reported,
};
use nlm::parse::Protocol;
use nlm::stats::Stats;

fn iface(id: &str, label: &str) -> Interface {
    Interface { id: id.into(), label: label.into(), speed_mbps: None }
}

#[test]
fn parses_dumpcap_listing_lines() {
    let i = parse_dumpcap_line(r"1. \Device\NPF_{ABC-123} (Ethernet 2)").unwrap();
    assert_eq!(i.id, r"\Device\NPF_{ABC-123}");
    assert_eq!(i.label, "Ethernet 2");

    // No friendly name available.
    let i = parse_dumpcap_line("2. eth0").unwrap();
    assert_eq!(i.id, "eth0");
    assert_eq!(i.label, "eth0");

    assert!(parse_dumpcap_line("").is_none());
}

#[test]
fn resolves_by_id_label_or_full_display() {
    let list = vec![iface(r"\Device\NPF_{X}", "Ethernet 2"), iface("eth0", "eth0")];
    assert_eq!(resolve(r"\Device\NPF_{X}", &list).unwrap().label, "Ethernet 2");
    assert_eq!(resolve("Ethernet 2", &list).unwrap().id, r"\Device\NPF_{X}");
    assert_eq!(resolve(r"Ethernet 2 (\Device\NPF_{X})", &list).unwrap().id, r"\Device\NPF_{X}");
    assert_eq!(resolve("eth0", &list).unwrap().id, "eth0");
    assert!(resolve("nope", &list).is_none());
}

#[test]
fn display_omits_a_redundant_label() {
    assert_eq!(iface("eth0", "eth0").to_string(), "eth0");
    assert_eq!(iface(r"\Device\X", "Ethernet").to_string(), r"Ethernet (\Device\X)");
}

#[test]
fn an_id_wins_over_a_label() {
    let list = vec![iface("a", "b"), iface("b", "c"), iface("d", "ETH")];
    assert_eq!(resolve("b", &list).unwrap().id, "b");
    assert_eq!(resolve("eth", &list).unwrap().id, "d");
    assert!(resolve("A", &list).is_none());
}

#[test]
fn listing_lines_read_back() {
    for (n, id, label) in [(1, "eth0", "x"), (12, "a.b", ""), (3, r"\Device\NPF_{1}", "A (B)")] {
        let i = parse_dumpcap_line(&format!("{n}. {id} ({label})\r")).unwrap();
        assert_eq!((i.id.as_str(), i.label.as_str()), (id, label));
    }
    assert_eq!(parse_dumpcap_line("lo").unwrap().id, "lo");
    assert_eq!(parse_dumpcap_line("9.").map(|i| i.id), None);
    assert_eq!(parse_dumpcap_line("1. a (b").unwrap().id, "a (b");
    let list = parse_dumpcap_listing("1. eth0\n\n2. lo (Loopback)\n");
    assert_eq!(list, vec![iface("eth0", "eth0"), iface("lo", "Loopback")]);
}

#[test]
fn linux_interfaces_are_sorted_with_their_speeds() {
    let list = linux_interfaces(&vec![
        ("lo".to_string(), None),
        ("eth1".to_string(), Some("1000\n".to_string())),
        ("eth0".to_string(), Some("-1\n".to_string())),
    ]);
    let got: Vec<(&str, Option<u32>)> =
        list.iter().map(|i| (i.id.as_str(), i.speed_mbps)).collect();
    assert_eq!(got, vec![("eth0", None), ("eth1", Some(1000)), ("lo", None)]);
    assert!(list.iter().all(|i| i.label == i.id));
    assert_eq!(parse_speed("0"), None);
    assert_eq!(parse_speed("+100"), Some(100));
    assert_eq!(parse_speed("fast"), None);
    assert_eq!(parse_speed("4294967297"), Some(1));
}

#[test]
fn link_speeds_come_from_the_adapters() {
    let adapters = vec![
        Adapter::new("", "none".to_string(), 10_000_000),
        Adapter::new("{abc}", "Ethernet".to_string(), 1_000_000_000),
        Adapter::new("{def}", String::new(), u64::MAX),
    ];
    let mut list = vec![iface(r"\Device\NPF_{Abc}", "E"), iface("other", "other")];
    attach_link_speeds(&mut list, &adapters);
    assert_eq!(list[0].speed_mbps, Some(1000));
    assert_eq!(list[1].speed_mbps, None);
    let all = adapters_as_interfaces(&adapters);
    assert_eq!(all[1].id, r"\Device\NPF_{ABC}");
    assert_eq!((all[1].label.as_str(), all[2].label.as_str()), ("Ethernet", "{DEF}"));
    // Without a listing the adapters are named themselves.
    assert_eq!(dumpcap_interfaces(None, Some(&adapters)), all);
    assert_eq!(dumpcap_interfaces(Some("1. x{ABC}"), Some(&adapters))[0].speed_mbps, Some(1000));
    assert!(dumpcap_interfaces(None, None).is_empty());
    assert_eq!(link_speed_mbps(0), None);
    assert_eq!(link_speed_mbps(999_999), None);
    assert_eq!(link_speed_mbps(1_000_000), Some(1));
    assert_eq!(link_speed_mbps(400_000_999_999), Some(400_000));
    assert_eq!(link_speed_mbps(400_001_000_000), None);
}

#[test]
fn interfaces_are_listed_as_reported() {
    let names = Reported::Names(vec![("b".to_string(), None), ("a".to_string(), None)]);
    assert_eq!(list_interfaces(&names), vec![iface("a", "a"), iface("b", "b")]);
    let listing = Reported::Listing { output: Some("1. b\n2. a".to_string()), adapters: None };
    assert_eq!(list_interfaces(&listing), vec![iface("b", "b"), iface("a", "a")]);
}

#[test]
fn backend_names_are_readable() {
    assert_eq!(Backend::RawSocket.to_string(), "raw socket");
    assert!(Backend::Dumpcap("/usr/bin/dumpcap".to_string())
        .to_string()
        .contains("/usr/bin/dumpcap"));
}

#[test]
fn missing_backend_explains_how_to_fix_it() {
    let msg = CaptureError::NoBackend.to_string(false);
    assert!(msg.contains("no capture backend available"));
    // The message must name a concrete remedy, not just state the problem.
    assert!(msg.contains("cap_net_raw") && msg.contains("wireshark"));
    let msg = CaptureError::NoBackend.to_string(true);
    assert!(msg.contains("no capture backend available"));
    assert!(msg.contains("Npcap"));
    assert_eq!(CaptureError::Start("why".to_string()).to_string(true), "why");
}

#[test]
fn a_raw_socket_is_preferred() {
    let path = || Some("/x/dumpcap".to_string());
    assert_eq!(select_backend(true, path()).unwrap(), Backend::RawSocket);
    assert_eq!(select_backend(true, None).unwrap(), Backend::RawSocket);
    assert_eq!(
        select_backend(false, path()).unwrap(),
        Backend::Dumpcap("/x/dumpcap".to_string())
    );
    assert!(matches!(select_backend(false, None), Err(CaptureError::NoBackend)));
    assert_eq!(find_dumpcap(&[false, true, true]), Some(1));
    assert_eq!(find_dumpcap(&[]), None);
    assert_eq!((dumpcap_name(true), dumpcap_name(false)), ("dumpcap.exe", "dumpcap"));
}

#[test]
fn a_capture_thread_knows_what_to_do() {
    assert_eq!(after_read(Received::Bytes(60), false, "x"), NextStep::Deliver(60));
    assert_eq!(after_read(Received::Bytes(0), false, "x"), NextStep::Idle);
    assert_eq!(after_read(Received::Record(0), false, "x"), NextStep::Deliver(0));
    assert_eq!(after_read(Received::Nothing, true, "x"), NextStep::Idle);
    assert_eq!(after_read(Received::Ended, false, "x"), NextStep::Finish(None));
    let failed = || Received::Failed("gone".to_string());
    assert_eq!(after_read(failed(), true, "capture failed"), NextStep::Finish(None));
    assert_eq!(
        after_read(failed(), false, "capture failed"),
        NextStep::Finish(Some("capture failed: gone".to_string()))
    );
    let mut slot = None;
    complain(&mut slot, "first".to_string());
    complain(&mut slot, "second".to_string());
    assert_eq!(slot.as_deref(), Some("first"));
    assert_eq!(start_complaint(" no permission\n", "e"), "dumpcap could not start capturing: no permission");
    assert_eq!(start_complaint(" \n", "e"), "dumpcap could not start capturing: e");
}

fn ptp(vlan: u8) -> Vec<u8> {
    let mut raw = vec![0xFFu8; 12];
    raw.extend_from_slice(&[0x81, 0x00, 0x00, vlan, 0x88, 0xF7, 0x00]);
    raw
}

/// Every frame that the filter lets through reaches the statistics, however the
/// frames fall into batches.
#[test]
fn batches_carry_every_frame() {
    let filter = FrameFilter { vlans: Some(parse_vlans("1,2").unwrap()), ..Default::default() };
    let mut sink = StatsSink::new(filter, 0);
    let mut stats = Stats::new(0);
    let mut batches = 0;
    let mut now = 0;
    for i in 0..1000u64 {
        now += BATCH_NS / 300;
        assert!(sink.has_room(64));
        if let Some(b) = sink.frame(&ptp((i % 4) as u8), 64, None, now) {
            stats.merge_batch(&b);
            batches += 1;
        }
        if i == 500 {
            if let Some(b) = sink.idle(now) {
                stats.merge_batch(&b);
            }
            assert!(sink.idle(now).is_none());
        }
    }
    if let Some(b) = sink.finish(now) {
        stats.merge_batch(&b);
    }
    assert!(sink.finish(now).is_none());
    assert!(batches > 1);
    assert_eq!(stats.totals(), (500, 32_000));
    let snap = stats.session_snapshot(now);
    let rows = snap.stats.get(Protocol::Ptp).unwrap();
    assert_eq!(rows.len(), 2);
    assert!(rows.entries().iter().all(|e| e.1.packets == 250));
}
