//! Which frames a filter lets through, and how its flags are read.
use nlm::filter::{
    parse_appids, parse_ids, parse_redundancy, parse_vlans, redundancy_item, redundancy_tokens,
    FrameFilter,
};
use nlm::load::classify_filtered;
use nlm::parse::{AppInfo, Frame, Protocol, Redundancy, VlanTags};
use nlm::sets::{listed, TextSet};

    fn frame(vlans: &[(u16, u8)], redundancy: Redundancy, appid: Option<u16>, svid: Option<&str>) -> Frame {
    Frame {
        proto: Protocol::Goose,
        vlans: VlanTags::from_tags(vlans),
        redundancy,
        app: AppInfo {
            appid,
            svid: svid.map(|s| s.to_string()),
            ..Default::default()
        },
    }
}

#[test]
fn empty_filter_accepts_everything() {
    let f = FrameFilter::default();
    assert!(f.is_empty());
    assert!(f.matches(&frame(&[], Redundancy::Absent, None, None)));
}

#[test]
fn redundancy_scheme_matches_either_lane() {
    let f = FrameFilter { redundancy: Some(parse_redundancy("hsr").unwrap()), ..Default::default() };
    assert!(f.matches(&frame(&[], Redundancy::Hsr(0xA), None, None)));
    assert!(f.matches(&frame(&[], Redundancy::Hsr(0xB), None, None)));
    assert!(!f.matches(&frame(&[], Redundancy::Prp(0xA), None, None)));
    assert!(!f.matches(&frame(&[], Redundancy::Absent, None, None)));
}

#[test]
fn redundancy_lane_is_specific() {
    let f = FrameFilter { redundancy: Some(parse_redundancy("hsr-a").unwrap()), ..Default::default() };
    assert!(f.matches(&frame(&[], Redundancy::Hsr(0xA), None, None)));
    assert!(!f.matches(&frame(&[], Redundancy::Hsr(0xB), None, None)));
}

#[test]
fn none_token_selects_unredundant_traffic() {
    let f = FrameFilter { redundancy: Some(parse_redundancy("none").unwrap()), ..Default::default() };
    assert!(f.matches(&frame(&[], Redundancy::Absent, None, None)));
    assert!(!f.matches(&frame(&[], Redundancy::Prp(0xB), None, None)));
}

#[test]
fn fields_are_anded_and_values_ored() {
    let f = FrameFilter {
        vlans: Some(parse_vlans("11,12").unwrap()),
        appids: Some(parse_appids("0x4041").unwrap()),
        ..Default::default()
    };
    assert!(f.matches(&frame(&[(11, 4)], Redundancy::Absent, Some(0x4041), None)));
    assert!(f.matches(&frame(&[(12, 4)], Redundancy::Absent, Some(0x4041), None)));
    // VLAN matches but AppID does not -> rejected.
    assert!(!f.matches(&frame(&[(11, 4)], Redundancy::Absent, Some(0x4042), None)));
    // AppID matches but VLAN does not -> rejected.
    assert!(!f.matches(&frame(&[(13, 4)], Redundancy::Absent, Some(0x4041), None)));
}

#[test]
fn ids_match_case_insensitively() {
    let f = FrameFilter { svids: Some(parse_ids("myGoose1")), ..Default::default() };
    assert!(f.matches(&frame(&[], Redundancy::Absent, None, Some("MYGOOSE1"))));
    assert!(f.matches(&frame(&[], Redundancy::Absent, None, Some("mygoose1"))));
    assert!(!f.matches(&frame(&[], Redundancy::Absent, None, Some("other"))));
    assert!(!f.matches(&frame(&[], Redundancy::Absent, None, None)));
}

#[test]
fn rejects_invalid_values_at_parse_time() {
    assert!(parse_vlans("4096").is_err());
    assert!(parse_vlans("abc").is_err());
    assert!(parse_appids("zz").is_err());
    assert!(parse_redundancy("hsr-c").is_err());
    assert_eq!(parse_appids("0x4041").unwrap(), parse_appids("4041").unwrap());
}

#[test]
fn lists_may_hold_spaces_and_gaps() {
    let v: Vec<u16> = parse_vlans(" 12 ,, 11,").unwrap().into_iter().collect();
    assert_eq!(v, vec![11, 12]);
    assert!(parse_vlans("").unwrap().is_empty());
    assert!(parse_vlans("+11").unwrap().contains(&11));
    assert_eq!(parse_vlans("11,x,y").unwrap_err(), "invalid VLAN id 'x' (expected 0-4095)");
    assert!(parse_vlans("-1").is_err());
    assert!(parse_vlans("99999999999999999999").is_err());
}

#[test]
fn appids_are_hexadecimal() {
    let a: Vec<u16> = parse_appids("0x4041, ffff,0XaB").unwrap().into_iter().collect();
    assert_eq!(a, vec![0x00AB, 0x4041, 0xFFFF]);
    assert_eq!(
        parse_appids("10000").unwrap_err(),
        "invalid AppID '10000' (expected hex, e.g. 0x4041)"
    );
    assert!(parse_appids("0x").is_err());
}

#[test]
fn redundancy_values_are_tokens_in_any_case() {
    assert!(parse_redundancy("HSR-A, Prp").unwrap().contains("hsr-a"));
    assert_eq!(
        parse_redundancy("hsr,lan").unwrap_err(),
        "invalid redundancy value 'lan' (expected one of: hsr, prp, none, hsr-a, hsr-b, prp-a, prp-b)"
    );
    assert_eq!(redundancy_item("NONE", "none".to_string()), Ok("none".to_string()));
    assert!(redundancy_item("x", "x".to_string()).is_err());
    assert_eq!(redundancy_tokens(Redundancy::Hsr(0xA)), vec!["hsr", "hsr-a"]);
    assert_eq!(redundancy_tokens(Redundancy::Prp(0x3)), vec!["prp"]);
    assert_eq!(redundancy_tokens(Redundancy::Absent), vec!["none"]);
}

#[test]
fn letter_case_follows_unicode() {
    let ids = parse_ids("stra\u{df}e");
    assert!(ids.contains("STRASSE"));
    let f = FrameFilter { svids: Some(ids), ..Default::default() };
    assert!(f.matches(&frame(&[], Redundancy::Absent, None, Some("STRASSE"))));
    assert!(f.matches(&frame(&[], Redundancy::Absent, None, Some("stra\u{df}e"))));
    // The Kelvin sign is a K in lower case, so it spells no token.
    assert!(parse_redundancy("\u{212a}").is_err());
}

#[test]
fn any_tag_of_a_stack_can_match() {
    let f = FrameFilter { vlans: Some(parse_vlans("11").unwrap()), ..Default::default() };
    assert!(f.matches(&frame(&[(100, 0), (11, 0)], Redundancy::Absent, None, None)));
    assert!(!f.matches(&frame(&[(100, 0)], Redundancy::Absent, None, None)));
    assert!(!f.matches(&frame(&[], Redundancy::Absent, None, None)));
    assert!(!f.matches_upper(&frame(&[], Redundancy::Absent, None, None), &None));
}

#[test]
fn summaries_list_every_field() {
    assert_eq!(FrameFilter::default().summary(), "");
    // A constraint without values is still one.
    let empty = FrameFilter { svids: Some(TextSet::new()), ..Default::default() };
    assert_eq!(empty.summary(), "id=");
    let f = FrameFilter {
        vlans: Some(parse_vlans("12,11").unwrap()),
        redundancy: Some(parse_redundancy("prp,hsr").unwrap()),
        appids: Some(parse_appids("4041,1").unwrap()),
        svids: Some(parse_ids("b,a")),
    };
    assert!(!f.is_empty());
    assert_eq!(
        f.summary(),
        "vlan=11,12 redundancy=hsr,prp appid=0x0001,0x4041 id=A,B"
    );
    assert_eq!(f.clone().summary(), f.summary());
}

#[test]
fn raw_frames_are_classified_and_filtered() {
    let mut raw = vec![0xFFu8; 12];
    raw.extend_from_slice(&[0x81, 0x00, 0x00, 0x0B, 0x88, 0xF7, 0x00]);
    let f = FrameFilter { vlans: Some(parse_vlans("11").unwrap()), ..Default::default() };
    assert_eq!(classify_filtered(&f, &raw).unwrap().proto, Protocol::Ptp);
    raw[15] = 0x0C;
    assert!(classify_filtered(&f, &raw).is_none());
}

#[test]
fn sets_are_listed_in_order_without_repeats() {
    let mut s = TextSet::new();
    for t in ["b", "a", "b", "", "ab"] {
        s.insert(t.to_string());
    }
    assert_eq!(s.items(), &vec!["", "a", "ab", "b"]);
    assert_eq!(s.len(), 4);
    let mut more = TextSet::new();
    more.insert("c".to_string());
    more.insert("a".to_string());
    s.extend(&more);
    assert_eq!(s.len(), 5);
    assert!(s.contains("c") && !s.contains("d") && !s.is_empty());
    assert!(s.same(&s.clone()) && !s.same(&more));
    assert_eq!(listed(&[3u16, 1, 2].into_iter().collect()), vec![1, 2, 3]);
}
