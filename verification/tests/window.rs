//! What the window decides, says and exports.
use nlm::capture::Backend;
use nlm::export::{civil_from_days, csv_escape, export_name, timestamp, to_csv};
use nlm::filter_popup::FilterPopup;
use nlm::iface::Interface;
use nlm::monitor::{
    can_start, can_stop, cancelled_status, cell_look, exported_status, failed_status, load_end,
    loaded_status, loading_status, negotiated, note_seen, preferred, read_error, running_status,
    settle, started_status, stopped_status, tick_capture, toggle, write_error, CaptureState,
    CellLook, LoadEnd, PopupEnd, Tick,
};
use nlm::parse::{Protocol, ProtocolSet};
use nlm::report::{DisplayFilter, LoadLevel, Report, Row, RowKind, COL_VLAN};
use nlm::sets::TextSet;
use std::collections::HashMap;

fn set(values: &[&str]) -> TextSet {
    let mut s = TextSet::new();
    for v in values {
        s.insert(v.to_string());
    }
    s
}

fn seen(values: &[&str]) -> HashMap<usize, TextSet> {
    let mut m = HashMap::new();
    m.insert(COL_VLAN, set(values));
    m
}

#[test]
fn opens_with_everything_checked_when_unfiltered() {
    let p = FilterPopup::open(COL_VLAN, &seen(&["11", "12"]), &DisplayFilter::default());
    assert!(p.all_checked());
    assert_eq!(p.selection(), None);
}

#[test]
fn opens_reflecting_an_existing_filter() {
    let mut f = DisplayFilter::default();
    f.set(COL_VLAN, Some(set(&["11"])));
    let p = FilterPopup::open(COL_VLAN, &seen(&["11", "12"]), &f);
    assert!(!p.all_checked());
    assert_eq!(p.choices, vec![("11".into(), true), ("12".into(), false)]);
}

#[test]
fn a_full_selection_clears_the_filter_instead_of_storing_everything() {
    let mut p = FilterPopup::open(COL_VLAN, &seen(&["11", "12"]), &DisplayFilter::default());
    p.set_all(false);
    assert_eq!(p.selection(), Some(TextSet::new()));
    p.set_all(true);
    assert_eq!(p.selection(), None, "all checked must mean unconstrained");
}

#[test]
fn partial_selection_is_carried_through() {
    let mut p = FilterPopup::open(COL_VLAN, &seen(&["11", "12", "13"]), &DisplayFilter::default());
    p.choices[1].1 = false;
    let sel = p.selection().unwrap();
    assert!(sel.contains("11") && sel.contains("13") && !sel.contains("12"));
}

#[test]
fn reopening_shows_the_choices() {
    let values = seen(&["11", "12", "13"]);
    let mut f = DisplayFilter::default();
    f.set(0, Some(set(&["GOOSE"])));
    let mut p = FilterPopup::open(COL_VLAN, &values, &f);
    p.choices[0].1 = false;
    settle(&p, PopupEnd::Apply, &mut f);
    let again = FilterPopup::open(COL_VLAN, &values, &f);
    assert_eq!(again.choices, p.choices);
    assert!(f.is_active(0));
    settle(&again, PopupEnd::Cancel, &mut f);
    assert!(f.is_active(COL_VLAN));
    settle(&again, PopupEnd::Clear, &mut f);
    assert!(!f.is_active(COL_VLAN) && f.is_active(0));
    assert!(FilterPopup::open(2, &values, &f).choices.is_empty());
}

#[test]
fn csv_quotes_only_what_needs_it() {
    assert_eq!(csv_escape("GOOSE"), "GOOSE");
    assert_eq!(csv_escape("11, 12"), "\"11, 12\"");
    assert_eq!(csv_escape("a\"b"), "\"a\"\"b\"");
}

#[test]
fn civil_dates_match_known_values() {
    assert_eq!(civil_from_days(0), (1970, 1, 1));
    assert_eq!(civil_from_days(19_723), (2024, 1, 1));
    // A leap day, which is where naive date maths usually goes wrong.
    assert_eq!(civil_from_days(19_782), (2024, 2, 29));
}

#[test]
fn export_filename_has_the_expected_shape() {
    let secs = std::time::SystemTime::now()
        .duration_since(std::time::UNIX_EPOCH)
        .map(|d| d.as_secs())
        .unwrap_or(0);
    let t = timestamp(secs);
    assert_eq!(t.len(), 15, "{t}");
    assert_eq!(&t[8..9], "_");
    assert!(t.chars().filter(|c| c.is_ascii_digit()).count() == 14);
}

#[test]
fn dates_follow_each_other() {
    let mut last = civil_from_days(-800_000);
    for z in -799_999..800_000 {
        let now = civil_from_days(z);
        let (y, m, d) = last;
        let next_day = now == (y, m, d + 1);
        let next_month = now == (y, m + 1, 1) && d >= 28;
        let next_year = now == (y + 1, 1, 1) && (m, d) == (12, 31);
        assert!(next_day || next_month || next_year, "{last:?} {now:?}");
        last = now;
    }
    assert_eq!(civil_from_days(-1), (1969, 12, 31));
    assert_eq!(civil_from_days(-719_468), (0, 3, 1));
    assert_eq!(civil_from_days(-25_509), (1900, 2, 28));
    assert_eq!(civil_from_days(-25_508), (1900, 3, 1));
    assert_eq!(civil_from_days(11_016), (2000, 2, 29));
    assert_eq!(civil_from_days(i64::MIN), (-25252734927764585, 6, 7));
}

#[test]
fn timestamps_are_exact() {
    assert_eq!(timestamp(0), "19700101_000000");
    assert_eq!(timestamp(1_709_210_096), "20240229_123456");
    assert_eq!(timestamp(253_402_300_799), "99991231_235959");
    assert_eq!(export_name(0), "network_monitor_19700101_000000.csv");
}

fn row(cells: &[&str; 11]) -> Row {
    Row {
        kind: RowKind::Detail,
        cells: cells.map(|c| c.to_string()),
        bytes: Some(1),
        level: LoadLevel::Normal,
        sim: false,
        redundant: false,
    }
}

fn report(rows: Vec<Row>, seen_values: HashMap<usize, TextSet>) -> Report {
    Report {
        rows,
        packets: 0,
        bytes: 0,
        window_ns: 1,
        uptime_secs: 0,
        is_session_total: false,
        seen_values,
    }
}

#[test]
fn the_export_holds_what_is_on_screen() {
    let head = "Protocol,VLAN,CoS,Redundancy,AppID,SVID/GOID,noASDU/stNum,confRev,Sim,bits/s,%\n";
    assert_eq!(to_csv(&report(vec![], HashMap::new())), head);
    let cells = ["GOOSE", "100, 11", "-", "-", "0x1", "a\"b", "1", "2", "no", "x\ny", "%"];
    assert_eq!(
        to_csv(&report(vec![row(&cells)], HashMap::new())),
        format!("{head}GOOSE,\"100, 11\",-,-,0x1,\"a\"\"b\",1,2,no,\"x\ny\",%\n")
    );
}

#[test]
fn values_stay_on_offer() {
    let mut noted = seen(&["11"]);
    noted.insert(7, set(&["kept"]));
    let mut offered = seen(&["12", "11"]);
    offered.insert(0, set(&["GOOSE"]));
    offered.insert(usize::MAX, set(&["beyond"]));
    note_seen(&mut noted, &report(vec![], offered));
    assert_eq!(noted[&COL_VLAN].items(), &vec!["11", "12"]);
    assert_eq!(noted[&0].items(), &vec!["GOOSE"]);
    assert_eq!(noted[&7].items(), &vec!["kept"]);
    assert_eq!(noted[&usize::MAX].items(), &vec!["beyond"]);
    assert_eq!(noted.len(), 4);
}

fn eth(speed_mbps: Option<u32>) -> Interface {
    Interface { id: "eth0".into(), label: "eth0".into(), speed_mbps }
}

#[test]
fn a_link_that_is_up_is_preferred() {
    assert_eq!(preferred(&[eth(None), eth(Some(100)), eth(Some(10))]), 1);
    assert_eq!(preferred(&[eth(None), eth(None)]), 0);
    assert_eq!(preferred(&[]), 0);
    assert_eq!(negotiated(&[eth(Some(5))], 0), Some(5));
    assert_eq!(negotiated(&[], 0), None);
}

#[test]
fn a_capture_comes_down() {
    let state = |capturing, running, stopping_ns, time_up, since_rotate_ns| CaptureState {
        capturing,
        running,
        stopping_ns,
        time_up,
        since_rotate_ns,
    };
    assert_eq!(tick_capture(&state(false, true, None, false, 0)), Tick::Nothing);
    assert_eq!(tick_capture(&state(true, true, Some(0), true, 0)), Tick::Wait);
    assert_eq!(tick_capture(&state(true, true, Some(5_000_000_000), false, 0)), Tick::Wait);
    assert_eq!(tick_capture(&state(true, true, Some(5_000_000_001), false, 0)), Tick::Finish);
    assert_eq!(tick_capture(&state(true, false, Some(0), false, 0)), Tick::Finish);
    assert_eq!(tick_capture(&state(true, false, None, true, 0)), Tick::RequestStop);
    assert_eq!(tick_capture(&state(true, false, None, false, 0)), Tick::Finish);
    assert_eq!(
        tick_capture(&state(true, true, None, false, 1_000_000_000)),
        Tick::Show { rotate: true }
    );
    assert_eq!(
        tick_capture(&state(true, true, None, false, 999_999_999)),
        Tick::Show { rotate: false }
    );
    assert!(can_start(false, false) && !can_start(true, false) && !can_start(false, true));
    assert!(can_stop(true, false) && !can_stop(true, true) && !can_stop(false, false));
}

#[test]
fn a_load_ends_in_one_of_three_ways() {
    assert_eq!(load_end(true, false), LoadEnd::Loaded);
    assert_eq!(load_end(true, true), LoadEnd::Cancelled);
    assert_eq!(load_end(false, true), LoadEnd::Failed);
}

#[test]
fn cells_look_like_what_they_mean() {
    let mut r = row(&[""; 11]);
    assert_eq!(cell_look(&r, 8), CellLook::Plain);
    assert_eq!(cell_look(&r, 10), CellLook::Plain);
    r.sim = true;
    assert_eq!(cell_look(&r, 8), CellLook::Alarm);
    r.level = LoadLevel::Warn;
    assert_eq!(cell_look(&r, 10), CellLook::Caution);
    r.level = LoadLevel::Critical;
    assert_eq!(cell_look(&r, 10), CellLook::Alarm);
    r.kind = RowKind::Total;
    assert_eq!(cell_look(&r, 10), CellLook::Strong);
    r.kind = RowKind::Idle;
    assert_eq!(cell_look(&r, 8), CellLook::Weak);
}

#[test]
fn protocols_are_toggled() {
    let mut on = ProtocolSet::new();
    toggle(&mut on, Protocol::Ptp, true);
    assert!(on.contains(Protocol::Ptp));
    toggle(&mut on, Protocol::Ptp, false);
    assert!(on.is_empty());
}

#[test]
fn statuses_read_well() {
    assert_eq!(
        started_status(&eth(None), &Backend::RawSocket),
        "Capturing on eth0 via raw socket"
    );
    assert_eq!(running_status(3, "1.0 KB", 61), "Capturing - 3 packets, 1.0 KB, uptime 00:01:01");
    assert_eq!(stopped_status(3, "1.0 KB", 61), "Stopped. 3 packets, 1.0 KB over 00:01:01");
    assert_eq!(loading_status("a.pcap"), "Loading a.pcap...");
    assert_eq!(
        loaded_status("a.pcap", 3, "1.0 KB", "2.000"),
        "Loaded a.pcap: 3 packets, 1.0 KB spanning 2.000 s"
    );
    assert_eq!(cancelled_status("a.pcap"), "Cancelled loading a.pcap.");
    assert_eq!(failed_status("a.pcap"), "Failed to load a.pcap.");
    assert_eq!(read_error("a.pcap", "e"), "Could not read a.pcap:\n\ne");
    assert_eq!(write_error("/b", "e"), "Could not write /b:\n\ne");
    assert_eq!(exported_status(2, "/b"), "Exported 2 rows to /b");
}
