//! What the command line asks for and prints.
use nlm::capture::Backend;
use nlm::cli::{
    filter_note, interface_line, keep_draining, live_step, no_such_interface, progress_line,
    speed_origin, start_note, title_context, Details, FilterArgs, LiveStep, SpeedOrigin,
};
use nlm::iface::Interface;
use nlm::parse::{Protocol, ProtocolSet, PROTO_ORDER};

/// The flags among the arguments that ask for detail.
fn details(argv: &[&str]) -> Details {
    let on = |flag: &str| argv.contains(&flag);
    Details {
        goose: on("--goose"),
        sv: on("--sv"),
        rgoose: on("--rgoose"),
        ptp: on("--ptp"),
        mms: on("--mms"),
        dnp3: on("--dnp3"),
        iec104: on("--iec104"),
        modbus: on("--modbus"),
        all: on("--all"),
    }
}

/// The values of the filter flags among the arguments.
fn filters(argv: &[&str]) -> FilterArgs {
    let value = |flag: &str| {
        argv.iter().position(|a| *a == flag).map(|i| argv[i + 1].to_string())
    };
    FilterArgs {
        vlan: value("--vlan"),
        redundancy: value("--redundancy"),
        appid: value("--appid"),
        goid: value("--goid"),
        svid: value("--svid"),
    }
}

#[test]
fn all_is_the_union_of_the_individual_detail_flags() {
    assert_eq!(details(&["--all"]).enabled_protocols(), ProtocolSet::from_list(&PROTO_ORDER));
    let each = details(&[
        "--goose", "--sv", "--rgoose", "--ptp", "--mms", "--dnp3", "--iec104", "--modbus",
    ]);
    assert_eq!(each.enabled_protocols(), details(&["--all"]).enabled_protocols());
}

#[test]
fn individual_flags_select_only_themselves() {
    let a = details(&["--goose", "--sv"]);
    let got = a.enabled_protocols();
    assert!(got.contains(Protocol::Goose) && got.contains(Protocol::SampledValues));
    assert!(!got.contains(Protocol::Ptp));
    // Every protocol folds into "Other" until asked for explicitly.
    assert!(details(&[]).enabled_protocols().is_empty());
}

#[test]
fn goid_and_svid_merge_into_one_id_filter() {
    let f = filters(&["--goid", "gooseA", "--svid", "svB"]).frame_filter().unwrap();
    let ids = f.svids.unwrap();
    assert_eq!(ids.len(), 2);
    assert!(ids.contains("GOOSEA") && ids.contains("SVB"));
}

#[test]
fn filter_flags_are_validated_before_capturing() {
    assert!(filters(&["--redundancy", "hsr-c"]).frame_filter().is_err());
    assert!(filters(&["--vlan", "9999"]).frame_filter().is_err());
    assert!(filters(&["--appid", "nothex"]).frame_filter().is_err());
    assert!(filters(&["--redundancy", "prp-b"]).frame_filter().is_ok());
}

#[test]
fn no_filter_flags_means_no_filtering() {
    assert!(filters(&[]).frame_filter().unwrap().is_empty());
    assert!(filter_note(&filters(&[]).frame_filter().unwrap()).is_empty());
    let f = filters(&["--vlan", "11"]).frame_filter().unwrap();
    assert!(filter_note(&f).starts_with("filter "));
    assert_eq!(filter_note(&f), "filter vlan=11");
}

#[test]
fn the_first_bad_flag_is_complained_about() {
    let e = filters(&["--appid", "x", "--vlan", "y", "--redundancy", "z"]).frame_filter();
    assert_eq!(e.unwrap_err(), "invalid VLAN id 'y' (expected 0-4095)");
    let e = filters(&["--appid", "x", "--vlan", "1", "--redundancy", "z"]).frame_filter();
    assert!(e.unwrap_err().starts_with("invalid redundancy value 'z'"));
    let f = filters(&["--svid", "only"]).frame_filter().unwrap();
    assert!(f.svids.unwrap().contains("ONLY") && f.vlans.is_none());
    assert!(filters(&["--goid", ""]).frame_filter().unwrap().svids.unwrap().is_empty());
}

fn eth(speed_mbps: Option<u32>) -> Interface {
    Interface { id: "eth0".into(), label: "Port 1".into(), speed_mbps }
}

#[test]
fn interfaces_are_listed_with_their_speed() {
    assert_eq!(interface_line(&eth(Some(1000))), "  Port 1 (eth0)  [1000 Mb/s]");
    assert_eq!(interface_line(&eth(None)), "  Port 1 (eth0)");
    assert_eq!(
        no_such_interface("x", &[eth(None), eth(Some(1))]),
        "no such interface: x\n\nAvailable interfaces:\n  Port 1 (eth0)\n  Port 1 (eth0)"
    );
    assert_eq!(no_such_interface("x", &[]), "no such interface: x\n\nAvailable interfaces:");
}

#[test]
fn the_link_speed_says_where_it_comes_from() {
    assert_eq!(speed_origin(true, Some(10)), SpeedOrigin::Given);
    assert_eq!(speed_origin(false, Some(10)), SpeedOrigin::Detected(10));
    assert_eq!(speed_origin(false, None), SpeedOrigin::Assumed);
    assert_eq!(SpeedOrigin::Assumed.words(), "assumed; set -s for this link");
    assert_eq!(title_context("eth0", "100"), "eth0 @ 100 Mb/s");
    assert_eq!(
        start_note(&eth(None), "100", SpeedOrigin::Given, "1.0", Some("10"), &Backend::RawSocket),
        "Starting capture on Port 1 (eth0) at 100 Mb/s (as given), 1.0s window, 10s duration, via raw socket"
    );
    assert!(start_note(&eth(None), "1", SpeedOrigin::Detected(1), "1.0", None, &Backend::RawSocket)
        .contains("(detected), 1.0s window, running until stopped, via"));
}

#[test]
fn a_progress_bar_keeps_its_width() {
    assert_eq!(
        progress_line("f", 3, " 10.0", 7, "1.0 KB"),
        "\rLoading f [###...........................]  10.0%  7 packets (1.0 KB)   "
    );
    let full = progress_line("f", 99, "100.0", 7, "1.0 KB");
    assert!(full.contains(&format!("[{}]", "#".repeat(30))));
    assert_eq!(full.len(), progress_line("f", 0, "100.0", 7, "1.0 KB").len());
}

#[test]
fn the_live_view_stops_for_three_reasons() {
    assert_eq!(live_step(true, true, false, true), LiveStep::Stop);
    assert_eq!(live_step(false, false, false, true), LiveStep::Stop);
    assert_eq!(live_step(false, true, true, true), LiveStep::Stop);
    assert_eq!(live_step(false, true, false, true), LiveStep::Show { rotate: true });
    assert_eq!(live_step(false, true, false, false), LiveStep::Show { rotate: false });
    assert!(keep_draining(true, 0) && !keep_draining(false, 0));
    assert!(!keep_draining(true, 5_000_000_000) && keep_draining(true, 4_999_999_999));
}
