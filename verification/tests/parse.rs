//! Frame classification against hand-built frames.
use nlm::ber::{be_uint, ber_len, ber_string, read_tlv, u16be};
use nlm::classify::{
    classify_ipv4, find_session_pdu, looks_like_dnp3, looks_like_iec104, looks_like_mms,
    looks_like_modbus, parse_frame,
};
use nlm::consts::{IPPROTO_TCP, IPPROTO_UDP};
use nlm::parse::{AppInfo, Frame, Protocol, ProtocolSet, Redundancy, VlanTags, NONE_STR, PROTO_ORDER};

/// Build an Ethernet frame: dst/src MAC, then `rest` from offset 12.
fn eth(rest: &[u8]) -> Vec<u8> {
    let mut v = vec![0xFF; 12];
    v.extend_from_slice(rest);
    v
}

#[test]
fn rejects_runt_frames() {
    assert_eq!(parse_frame(&[]).proto, Protocol::Other);
    assert_eq!(parse_frame(&[0u8; 13]).proto, Protocol::Other);
    // Truncation must never panic, at any length.
    let full = eth(&[0x88, 0xB8, 0x40, 0x41, 0x00, 0x10, 0x80, 0x00, 0x00, 0x00, 0x61, 0x03,
                     0x80, 0x01, 0x41]);
    for n in 0..full.len() {
        let _ = parse_frame(&full[..n]);
    }
}

#[test]
fn classifies_plain_ethertypes() {
    assert_eq!(parse_frame(&eth(&[0x88, 0xF7, 0x00])).proto, Protocol::Ptp);
    assert_eq!(parse_frame(&eth(&[0x88, 0xCC, 0x00])).proto, Protocol::Lldp);
    assert_eq!(parse_frame(&eth(&[0x08, 0x06, 0x00])).proto, Protocol::Arp);
    assert_eq!(parse_frame(&eth(&[0x86, 0xDD, 0x00])).proto, Protocol::Ipv6);
    assert_eq!(parse_frame(&eth(&[0x88, 0xB9, 0x00])).proto, Protocol::Gsse);
    assert_eq!(parse_frame(&eth(&[0x99, 0x99, 0x00])).proto, Protocol::Other);
}

#[test]
fn detects_llc_bpdu_as_rstp() {
    // 802.3 length field (<= 1500) followed by DSAP/SSAP 0x42.
    assert_eq!(parse_frame(&eth(&[0x00, 0x26, 0x42, 0x42, 0x03])).proto, Protocol::Rstp);
    assert_eq!(parse_frame(&eth(&[0x00, 0x26, 0xAA, 0xAA, 0x03])).proto, Protocol::Other);
}

#[test]
fn unwraps_single_and_stacked_vlan_tags() {
    // One 802.1Q tag: PCP 4, VLAN 11, inner PTP.
    let f = parse_frame(&eth(&[0x81, 0x00, 0x80, 0x0B, 0x88, 0xF7, 0x00]));
    assert_eq!(f.proto, Protocol::Ptp);
    assert_eq!(f.vlans.ids(), &[11]);
    assert_eq!(f.vlans.pcps(), &[4]);
    assert_eq!(f.vlans.vlan_label(), "11");
    assert_eq!(f.vlans.cos_label(), "4");

    // QinQ: outer 802.1ad VLAN 100 PCP 2, inner 802.1Q VLAN 11 PCP 4.
    let f = parse_frame(&eth(&[
        0x88, 0xA8, 0x40, 0x64, 0x81, 0x00, 0x80, 0x0B, 0x88, 0xF7, 0x00,
    ]));
    assert_eq!(f.proto, Protocol::Ptp);
    assert_eq!(f.vlans.ids(), &[100, 11]);
    assert_eq!(f.vlans.vlan_label(), "100, 11");
    assert_eq!(f.vlans.cos_label(), "2, 4");
}

#[test]
fn detects_hsr_tag_and_inner_protocol() {
    // HSR: Path 0xA, LSDUsize, SeqNr, then inner GOOSE EtherType.
    let f = parse_frame(&eth(&[0x89, 0x2F, 0xA0, 0x20, 0x00, 0x01, 0x88, 0xB8, 0x00, 0x00]));
    assert_eq!(f.proto, Protocol::Goose);
    assert_eq!(f.redundancy, Redundancy::Hsr(0xA));
    assert_eq!(f.redundancy.to_string(), "HSR-A");

    let f = parse_frame(&eth(&[0x89, 0x2F, 0xB0, 0x20, 0x00, 0x01, 0x88, 0xF7, 0x00, 0x00]));
    assert_eq!(f.redundancy.to_string(), "HSR-B");
    // An unconventional Path nibble still reports rather than being dropped.
    let f = parse_frame(&eth(&[0x89, 0x2F, 0x30, 0x20, 0x00, 0x01, 0x88, 0xF7, 0x00, 0x00]));
    assert_eq!(f.redundancy.to_string(), "HSR-0x3");
}

#[test]
fn detects_prp_trailer_without_consuming_payload() {
    // PTP payload followed by a PRP RCT: SeqNr, LanId 0xB + LSDUsize, 0x88FB.
    let f = parse_frame(&eth(&[
        0x88, 0xF7, 0xAA, 0xBB, 0x00, 0x01, 0xB0, 0x10, 0x88, 0xFB,
    ]));
    assert_eq!(f.proto, Protocol::Ptp);
    assert_eq!(f.redundancy, Redundancy::Prp(0xB));
    assert_eq!(f.redundancy.to_string(), "PRP-B");
}

#[test]
fn hsr_takes_precedence_over_a_trailing_prp_suffix() {
    let f = parse_frame(&eth(&[
        0x89, 0x2F, 0xA0, 0x20, 0x00, 0x01, 0x88, 0xF7, 0x00, 0x00, 0x00, 0x00, 0x88, 0xFB,
    ]));
    assert_eq!(f.redundancy, Redundancy::Hsr(0xA));
}

#[test]
fn parses_goose_apdu() {
    // AppID 0x4041, Length, Res1 with sim bit set, Res2, then goosePdu.
    let goose_pdu = [
        0x61, 0x1C, // APPLICATION 1, len 28
        0x80, 0x0A, b'g', b'o', b'c', b'b', b'R', b'e', b'f', b'/', b'L', b'N', // gocbRef
        0x83, 0x06, b'm', b'y', b'G', b'O', b'0', b'1', // goID
        0x85, 0x02, 0x01, 0x2C, // stNum = 300
        0x88, 0x01, 0x07, // confRev = 7
    ];
    let mut payload = vec![0x88, 0xB8, 0x40, 0x41, 0x00, 0x20, 0x80, 0x00, 0x00, 0x00];
    payload.extend_from_slice(&goose_pdu);
    let f = parse_frame(&eth(&payload));

    assert_eq!(f.proto, Protocol::Goose);
    assert_eq!(f.app.appid, Some(0x4041));
    assert_eq!(f.app.appid_label(), "0x4041");
    assert_eq!(f.app.svid_label(), "myGO01"); // goID wins over gocbRef
    assert_eq!(f.app.noasdu, Some(300));
    assert_eq!(f.app.confrev, Some(7));
    assert_eq!(f.app.sim, Some(true));
}

#[test]
fn goose_falls_back_to_gocbref_when_goid_absent() {
    let pdu = [0x61, 0x08, 0x80, 0x06, b'g', b'c', b'b', b'R', b'e', b'f'];
    let mut payload = vec![0x88, 0xB8, 0x40, 0x41, 0x00, 0x20, 0x00, 0x00, 0x00, 0x00];
    payload.extend_from_slice(&pdu);
    let f = parse_frame(&eth(&payload));
    assert_eq!(f.app.svid_label(), "gcbRef");
    assert_eq!(f.app.sim, Some(false));
}

#[test]
fn goose_without_pdu_tag_keeps_only_appid() {
    let payload = vec![0x88, 0xB8, 0x40, 0x41, 0x00, 0x20, 0x00, 0x00, 0x00, 0x00, 0x99, 0x00];
    let f = parse_frame(&eth(&payload));
    assert_eq!(f.app.appid, Some(0x4041));
    assert_eq!(f.app.svid_label(), NONE_STR);
    assert_eq!(f.app.sim_label(), NONE_STR);
}

#[test]
fn parses_sampled_values_apdu() {
    let asdu = [
        0x30, 0x0D, // ASDU SEQUENCE
        0x80, 0x08, b'M', b'U', b'0', b'1', b'_', b'S', b'V', b'1', // svID
        0x83, 0x01, 0x01, // confRev = 1
    ];
    let mut sav = vec![0xA2, asdu.len() as u8];
    sav.extend_from_slice(&asdu);
    let mut pdu = vec![0x80, 0x01, 0x02]; // noASDU = 2
    pdu.extend_from_slice(&sav);

    let mut payload = vec![0x88, 0xBA, 0x40, 0x00, 0x00, 0x30, 0x00, 0x00, 0x00, 0x00];
    payload.push(0x60);
    payload.push(pdu.len() as u8);
    payload.extend_from_slice(&pdu);

    let f = parse_frame(&eth(&payload));
    assert_eq!(f.proto, Protocol::SampledValues);
    assert_eq!(f.app.appid, Some(0x4000));
    assert_eq!(f.app.svid_label(), "MU01_SV1");
    assert_eq!(f.app.noasdu, Some(2));
    assert_eq!(f.app.confrev, Some(1));
    assert_eq!(f.app.sim, Some(false));
}

/// Build an IPv4 packet body starting at the Ethernet payload offset.
fn ipv4(proto: u8, dst: [u8; 4], transport: &[u8]) -> Vec<u8> {
    let mut v = vec![0x45, 0x00, 0x00, 0x00, 0x00, 0x00, 0x00, 0x00, 0x40, proto, 0x00, 0x00];
    v.extend_from_slice(&[10, 0, 0, 1]); // src
    v.extend_from_slice(&dst);
    v.extend_from_slice(transport);
    v
}

fn tcp(sport: u16, dport: u16, payload: &[u8]) -> Vec<u8> {
    let mut v = Vec::new();
    v.extend_from_slice(&sport.to_be_bytes());
    v.extend_from_slice(&dport.to_be_bytes());
    v.extend_from_slice(&[0, 0, 0, 0, 0, 0, 0, 0]); // seq + ack
    v.extend_from_slice(&[0x50, 0x18, 0x00, 0x00, 0x00, 0x00, 0x00, 0x00]); // doff=5
    v.extend_from_slice(payload);
    v
}

fn udp(sport: u16, dport: u16, payload: &[u8]) -> Vec<u8> {
    let mut v = Vec::new();
    v.extend_from_slice(&sport.to_be_bytes());
    v.extend_from_slice(&dport.to_be_bytes());
    v.extend_from_slice(&[0, 0, 0, 0]);
    v.extend_from_slice(payload);
    v
}

fn ipv4_frame(body: Vec<u8>) -> Vec<u8> {
    let mut p = vec![0x08, 0x00];
    p.extend_from_slice(&body);
    eth(&p)
}

#[test]
fn confirms_unicast_scada_protocols_by_signature() {
    let mms = ipv4_frame(ipv4(IPPROTO_TCP, [10, 0, 0, 2], &tcp(50000, 102, &[0x03, 0x00, 0x00, 0x16])));
    assert_eq!(parse_frame(&mms).proto, Protocol::Mms);

    let iec104 = ipv4_frame(ipv4(IPPROTO_TCP, [10, 0, 0, 2], &tcp(50000, 2404, &[0x68, 0x04, 0x07, 0x00])));
    assert_eq!(parse_frame(&iec104).proto, Protocol::Iec104);

    let modbus = ipv4_frame(ipv4(IPPROTO_TCP, [10, 0, 0, 2], &tcp(50000, 502, &[0, 1, 0, 0, 0, 6, 1, 3])));
    assert_eq!(parse_frame(&modbus).proto, Protocol::ModbusTcp);

    let dnp3 = ipv4_frame(ipv4(IPPROTO_TCP, [10, 0, 0, 2], &tcp(50000, 20000, &[0x05, 0x64, 0x0A])));
    assert_eq!(parse_frame(&dnp3).proto, Protocol::Dnp3);

    let dnp3_udp = ipv4_frame(ipv4(IPPROTO_UDP, [10, 0, 0, 2], &udp(20000, 20000, &[0x05, 0x64, 0x0A])));
    assert_eq!(parse_frame(&dnp3_udp).proto, Protocol::Dnp3);

    let ntp = ipv4_frame(ipv4(IPPROTO_UDP, [10, 0, 0, 2], &udp(123, 123, &[0x1B])));
    assert_eq!(parse_frame(&ntp).proto, Protocol::Ntp);
}

#[test]
fn port_match_alone_is_not_enough() {
    // Right port, wrong framing -> stays IPv4 rather than being mislabelled.
    for (port, bad) in [
        (102u16, vec![0xDE, 0xAD, 0xBE, 0xEF]),
        (2404, vec![0x99, 0x04]),
        (502, vec![0, 1, 9, 9, 0, 6, 1, 3]),
        (20000, vec![0x01, 0x02, 0x03]),
    ] {
        let f = ipv4_frame(ipv4(IPPROTO_TCP, [10, 0, 0, 2], &tcp(50000, port, &bad)));
        assert_eq!(parse_frame(&f).proto, Protocol::Ipv4, "port {port} should not match");
    }
}

#[test]
fn skips_non_first_ip_fragments() {
    let mut body = ipv4(IPPROTO_TCP, [10, 0, 0, 2], &tcp(50000, 102, &[0x03, 0x00, 0x00, 0x16]));
    body[6] = 0x00;
    body[7] = 0x10; // non-zero fragment offset
    assert_eq!(parse_frame(&ipv4_frame(body)).proto, Protocol::Ipv4);
}

#[test]
fn parses_rgoose_over_udp_multicast() {
    let goose_pdu = [
        0x61, 0x15, 0x80, 0x04, b'g', b'c', b'b', b'1', // gocbRef
        0x83, 0x04, b'R', b'G', b'O', b'1', // goID
        0x85, 0x01, 0x09, // stNum
        0x87, 0x01, 0xFF, // simulation = true
        0x88, 0x01, 0x02, // confRev
    ];
    // Session header padding, then AppID (4 bytes before the 0x61 tag).
    let mut udp_payload = vec![0xA1, 0x18, 0x00, 0x00, 0x00, 0x00];
    udp_payload.extend_from_slice(&[0x80, 0x01]); // AppID 0x8001
    udp_payload.extend_from_slice(&[0x00, 0x18]); // Length
    udp_payload.extend_from_slice(&goose_pdu);

    let f = parse_frame(&ipv4_frame(ipv4(
        IPPROTO_UDP,
        [224, 0, 1, 100],
        &udp(102, 102, &udp_payload),
    )));
    assert_eq!(f.proto, Protocol::RGoose);
    assert_eq!(f.app.appid, Some(0x8001));
    assert_eq!(f.app.svid_label(), "RGO1");
    assert_eq!(f.app.noasdu, Some(9));
    assert_eq!(f.app.confrev, Some(2));
    assert_eq!(f.app.sim, Some(true));

    // The payload is what identifies it, so a site using a different
    // multicast group is still classified correctly.
    let f = parse_frame(&ipv4_frame(ipv4(
        IPPROTO_UDP,
        [239, 192, 0, 5],
        &udp(102, 102, &udp_payload),
    )));
    assert_eq!(f.proto, Protocol::RGoose);
    assert_eq!(f.app.svid_label(), "RGO1");
}

#[test]
fn ordinary_ip_multicast_is_not_mistaken_for_rgoose() {
    // mDNS and SSDP are in the multicast range but carry nothing like a
    // session PDU. Counting them as R-GOOSE would inflate a protocol an
    // operator is specifically watching.
    for (dst, payload) in [
        ([224u8, 0, 0, 251], vec![0x00, 0x00, 0x84, 0x00, 0x00, 0x00]), // mDNS
        ([239, 255, 255, 250], b"NOTIFY * HTTP/1.1\r\n".to_vec()),      // SSDP
        ([224, 0, 0, 1], vec![0x11, 0x64, 0xee, 0x9b]),                 // IGMP-ish
    ] {
        let f = parse_frame(&ipv4_frame(ipv4(IPPROTO_UDP, dst, &udp(5353, 5353, &payload))));
        assert_eq!(f.proto, Protocol::Ipv4, "{dst:?} should not be R-GOOSE");
    }
}

#[test]
fn conventional_iec_multicast_ranges_still_classify_without_a_parsable_payload() {
    // A session header longer than the scan window leaves the payload
    // unconfirmed; the reserved IEC ranges then act as the fallback.
    let opaque = vec![0xAA; 200];
    let f = parse_frame(&ipv4_frame(ipv4(IPPROTO_UDP, [224, 0, 1, 5], &udp(102, 102, &opaque))));
    assert_eq!(f.proto, Protocol::RGoose);
    let f = parse_frame(&ipv4_frame(ipv4(IPPROTO_UDP, [224, 0, 2, 5], &udp(102, 102, &opaque))));
    assert_eq!(f.proto, Protocol::RSv);
    // ...but only those two /24s, not the whole multicast range.
    let f = parse_frame(&ipv4_frame(ipv4(IPPROTO_UDP, [224, 0, 3, 5], &udp(102, 102, &opaque))));
    assert_eq!(f.proto, Protocol::Ipv4);
}

#[test]
fn ber_length_handles_long_form_and_truncation() {
    assert_eq!(ber_len(&[0x05], 0), (5, 1));
    assert_eq!(ber_len(&[0x81, 0x80], 0), (128, 2));
    assert_eq!(ber_len(&[0x82, 0x01, 0x00], 0), (256, 3));
    // Long form claiming more bytes than exist.
    assert_eq!(ber_len(&[0x84, 0x01], 0), (0, 5));
    assert_eq!(ber_len(&[], 0), (0, 0));
}

#[test]
fn strings_are_sanitised_for_display() {
    assert_eq!(ber_string(b"ok\x1b[31m"), "ok.[31m");
    assert_eq!(ber_string(&[0x00, 0xFF]), "..");
}

// ---- Bytes ------------------------------------------------------------------------------

#[test]
fn numbers_saturate_instead_of_wrapping() {
    assert_eq!(be_uint(&[]), 0);
    assert_eq!(be_uint(&[0x01, 0x2C]), 300);
    assert_eq!(be_uint(&[0xFF; 8]), u64::MAX);
    assert_eq!(be_uint(&[0x01, 0, 0, 0, 0, 0, 0, 0, 0]), u64::MAX);
    assert_eq!(be_uint(&[0x00, 0, 0, 0, 0, 0, 0, 0, 7]), 7);
    // A length that no address space holds.
    let (len, used) = ber_len(&[0x89, 1, 0, 0, 0, 0, 0, 0, 0, 0], 0);
    assert_eq!((len, used), (usize::MAX, 10));
}

#[test]
fn reads_past_the_end_give_nothing() {
    assert_eq!(u16be(&[1, 2, 3], 1), Some(0x0203));
    assert_eq!(u16be(&[1, 2, 3], 2), None);
    assert_eq!(u16be(&[1, 2, 3], usize::MAX), None);
    let t = read_tlv(&[0x80, 0x01, 7], 0, 3).unwrap();
    assert_eq!((t.tag, t.start, t.end), (0x80, 2, 3));
    assert!(read_tlv(&[0x80, 0x05, 1], 0, 3).is_none());
    assert!(read_tlv(&[0x80], 0, 1).is_none());
    assert!(read_tlv(&[], 0, 0).is_none());
}

#[test]
fn identifiers_are_printable() {
    let every: Vec<u8> = (0..=255).collect();
    let text = ber_string(&every);
    assert_eq!(text.chars().count(), 256);
    assert!(text.chars().all(|c| (' '..='~').contains(&c)));
    assert_eq!(ber_string(b"plain"), "plain");
    assert_eq!(ber_string(b""), "");
}

// ---- Tags and labels ---------------------------------------------------------------------

#[test]
fn tag_stacks_stop_at_four() {
    let five = [(1, 1), (2, 2), (3, 3), (4, 4), (5, 5)];
    let t = VlanTags::from_tags(&five);
    assert_eq!(t.ids(), &[1, 2, 3, 4]);
    assert_eq!(t.pcps(), &[1, 2, 3, 4]);
    assert!(!t.is_empty());
    assert!(t.same(&VlanTags::from_tags(&five[..4])));
    assert!(!t.same(&VlanTags::from_tags(&five[..3])));
    assert!(VlanTags::default().is_empty());
    assert_eq!(VlanTags::default().vlan_label(), "-");
    assert_eq!(VlanTags::default().cos_label(), "-");
}

#[test]
fn vlan_tags_stay_in_range() {
    let f = parse_frame(&eth(&[0x81, 0x00, 0xFF, 0xFF, 0x88, 0xF7, 0x00]));
    assert_eq!(f.vlans.ids(), &[4095]);
    assert_eq!(f.vlans.pcps(), &[7]);
}

#[test]
fn redundancy_reads_as_scheme_and_lane() {
    assert_eq!(Redundancy::Absent.to_string(), "-");
    assert_eq!(Redundancy::Prp(0xA).to_string(), "PRP-A");
    assert_eq!(Redundancy::Prp(0x0).to_string(), "PRP-0x0");
    assert_eq!(Redundancy::default(), Redundancy::Absent);
}

#[test]
fn labels_fall_back_to_a_dash() {
    let none = AppInfo::default();
    assert_eq!(none.appid_label(), NONE_STR);
    assert_eq!(none.svid_label(), NONE_STR);
    assert_eq!(none.noasdu_label(), NONE_STR);
    assert_eq!(none.confrev_label(), NONE_STR);
    assert_eq!(none.sim_label(), NONE_STR);
    assert!(!none.is_sim());
    let all = AppInfo {
        appid: Some(0x00AB),
        svid: Some("MU".to_string()),
        noasdu: Some(12),
        confrev: Some(3),
        sim: Some(true),
    };
    assert_eq!(all.appid_label(), "0x00AB");
    assert_eq!(all.svid_label(), "MU");
    assert_eq!(all.noasdu_label(), "12");
    assert_eq!(all.confrev_label(), "3");
    assert_eq!(all.sim_label(), "yes");
    assert!(all.is_sim());
    assert!(all.same(&all.clone()) && !all.same(&none));
    assert_eq!(AppInfo { sim: Some(false), ..AppInfo::default() }.sim_label(), "no");
}

#[test]
fn every_featured_protocol_has_a_flag_of_its_own() {
    for p in PROTO_ORDER {
        assert!(p.is_featured());
        let flag = p.flag().unwrap();
        assert_eq!(Protocol::from_flag(flag), Some(p));
    }
    for p in [Protocol::Other, Protocol::Ipv4, Protocol::RSv, Protocol::Rstp] {
        assert!(!p.is_featured());
        assert_eq!(p.flag(), None);
    }
    assert_eq!(Protocol::from_flag("nosuch"), None);
    assert_eq!(Protocol::SampledValues.name(), "Sampled Values");
}

#[test]
fn protocol_sets_hold_what_was_put_in() {
    let mut s = ProtocolSet::new();
    assert!(s.is_empty());
    s.insert(Protocol::Ptp);
    assert!(s.contains(Protocol::Ptp) && !s.contains(Protocol::Mms) && !s.is_empty());
    s.remove(Protocol::Ptp);
    assert!(s.is_empty());
    assert!(ProtocolSet::from_list(&PROTO_ORDER).contains(Protocol::ModbusTcp));
}

// ---- Framing ------------------------------------------------------------------------------

#[test]
fn signatures_hold_to_their_bounds() {
    assert!(looks_like_mms(&[0x03, 0x00, 0x00, 0x04]));
    assert!(!looks_like_mms(&[0x03, 0x00, 0x00, 0x03]));
    assert!(!looks_like_mms(&[0x03, 0x00, 0x00]));
    assert!(looks_like_iec104(&[0x68, 253]) && !looks_like_iec104(&[0x68, 254]));
    assert!(looks_like_iec104(&[0x68, 4]) && !looks_like_iec104(&[0x68, 3]));
    assert!(looks_like_modbus(&[0, 1, 0, 0, 0, 253, 1, 3]));
    assert!(!looks_like_modbus(&[0, 1, 0, 0, 0, 254, 1, 3]));
    assert!(!looks_like_modbus(&[0, 1, 0, 0, 0, 6, 1, 0]));
    assert!(looks_like_dnp3(&[0x05, 0x64, 5]) && !looks_like_dnp3(&[0x05, 0x64, 4]));
}

#[test]
fn a_session_pdu_is_found_within_the_scan_window() {
    let mut data = vec![0u8; 40];
    data[12] = 0x61;
    data[13] = 0x02;
    data[14] = 0x80;
    assert_eq!(find_session_pdu(&data, 0, 0x61), Some(12));
    assert_eq!(find_session_pdu(&data, 0, 0x60), None);
    // Too near the start, and no body behind it.
    assert_eq!(find_session_pdu(&data, 9, 0x61), None);
    data[14] = 0x81;
    assert_eq!(find_session_pdu(&data, 0, 0x61), None);
}

#[test]
fn only_iec61850_frames_have_a_header() {
    let ntp = ipv4_frame(ipv4(IPPROTO_UDP, [10, 0, 0, 2], &udp(123, 123, &[0x1B])));
    assert!(parse_frame(&ntp).app.same(&AppInfo::default()));
    assert_eq!(classify_ipv4(&ntp, 14), (Protocol::Ntp, None));
    assert_eq!(classify_ipv4(&ntp, ntp.len()), (Protocol::Ipv4, None));
    let ptp: Frame = parse_frame(&eth(&[0x88, 0xF7, 0x00]));
    assert_eq!(ptp.app, AppInfo::default());
}

#[test]
fn a_trailer_does_not_move_the_payload() {
    let mut raw = eth(&[0x88, 0xB8, 0x40, 0x41, 0x00, 0x20, 0x00, 0x00, 0x00, 0x00]);
    raw.extend_from_slice(&[0x61, 0x05, 0x83, 0x03, b'G', b'O', b'1']);
    let bare = parse_frame(&raw);
    raw.extend_from_slice(&[0x00, 0x01, 0xA0, 0x10, 0x88, 0xFB]);
    let trailed = parse_frame(&raw);
    assert_eq!(bare.redundancy, Redundancy::Absent);
    assert_eq!(trailed.redundancy, Redundancy::Prp(0xA));
    assert_eq!(bare.app, trailed.app);
    assert_eq!(bare.proto, trailed.proto);
}

#[test]
fn a_cut_datagram_keeps_its_payload_offset() {
    // An IPv4 header to 224.0.1.5, and the first half of a UDP header.
    let mut packet = ipv4(IPPROTO_UDP, [224, 0, 1, 5], &udp(5000, 5000, &[]));
    packet.truncate(24);
    assert_eq!(classify_ipv4(&packet, 0), (Protocol::RGoose, Some(28)));
    let whole = ipv4(IPPROTO_UDP, [224, 0, 1, 5], &udp(5000, 5000, &[1, 2, 3]));
    assert_eq!(classify_ipv4(&whole, 0), (Protocol::RGoose, Some(28)));
}
