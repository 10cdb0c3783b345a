//! Turning a snapshot into table rows.
use nlm::classify::parse_frame;
use nlm::counts::{Counter, StatKey, StatsMap};
use nlm::fmt::trim_trailing_zeros;
use nlm::parse::{Frame, Protocol, ProtocolSet, PROTO_ORDER};
use nlm::report::{
    build_report, DisplayFilter, LoadLevel, Measure, Report, Row, RowKind, COL_VLAN, COLUMNS,
    FILTERABLE_COLUMNS,
};
use nlm::rows::{display_order, rank_rows};
use nlm::order::Rank;
use nlm::sets::TextSet;
use nlm::stats::{Snapshot, Stats};

const SEC: u64 = 1_000_000_000;

fn goose(vlan: u16, appid: u16) -> Frame {
    let mut raw = vec![0xFFu8; 12];
    raw.extend_from_slice(&[0x81, 0x00, (vlan >> 8) as u8 & 0x0F, (vlan & 0xFF) as u8]);
    raw.extend_from_slice(&[0x88, 0xB8]);
    raw.extend_from_slice(&appid.to_be_bytes());
    raw.extend_from_slice(&[0x00, 0x20, 0x00, 0x00, 0x00, 0x00]);
    raw.extend_from_slice(&[0x61, 0x05, 0x83, 0x03, b'G', b'O', b'1']);
    parse_frame(&raw)
}

fn ptp() -> Frame {
    let mut raw = vec![0xFFu8; 12];
    raw.extend_from_slice(&[0x88, 0xF7, 0x00, 0x00]);
    parse_frame(&raw)
}

fn enabled(protos: &[Protocol]) -> ProtocolSet {
    ProtocolSet::from_list(protos)
}

fn set(values: &[&str]) -> TextSet {
    let mut s = TextSet::new();
    for v in values {
        s.insert(v.to_string());
    }
    s
}

/// The bits per second that a row's bytes amount to in a one-second window.
fn bits_per_s(row: &Row) -> f64 {
    row.bytes.unwrap() as f64 * 8.0
}

/// A report over a one-second window on a link of the given speed.
fn report(snap: &Snapshot, on: &ProtocolSet, link_mbps: f64, df: &DisplayFilter) -> Report {
    let window = snap.window_ns as f64 / 1e9;
    build_report(snap, on, df, |bytes: u64| {
        let bits = bytes as f64 * 8.0 / window;
        let pct = bits / (link_mbps * 1_000_000.0) * 100.0;
        Measure {
            rate: if bits >= 1000.0 {
                format!("{:.3} Kbit/s", bits / 1000.0)
            } else {
                format!("{bits:.3} bit/s")
            },
            load: trim_trailing_zeros(&format!("{pct:.4}"), 2),
            level: LoadLevel::Normal,
        }
    })
}

/// 1250 bytes over a 1 s window on a 100 Mb/s link is exactly 0.01%.
#[test]
fn computes_rate_and_load_percentage() {
    let mut s = Stats::new(0);
    s.record(&goose(11, 0x4041), 1250);
    s.rotate(SEC);
    let mut snap = s.snapshot(SEC);
    snap.window_ns = u128::from(SEC);

    let r = report(&snap, &enabled(&[Protocol::Goose]), 100.0, &DisplayFilter::default());
    let detail = &r.rows[0];
    assert_eq!(detail.kind, RowKind::Detail);
    assert_eq!(detail.cells[9], "10.000 Kbit/s");
    assert_eq!(detail.cells[10], "0.01");
}

#[test]
fn adds_a_subtotal_only_when_a_protocol_spans_multiple_rows() {
    let mut s = Stats::new(0);
    s.record(&goose(11, 0x4041), 100);
    s.rotate(SEC);
    let mut snap = s.snapshot(SEC);
    snap.window_ns = u128::from(SEC);
    let r = report(&snap, &enabled(&[Protocol::Goose]), 100.0, &DisplayFilter::default());
    assert!(!r.rows.iter().any(|row| row.kind == RowKind::Subtotal));

    let mut s = Stats::new(0);
    s.record(&goose(11, 0x4041), 100);
    s.record(&goose(12, 0x4042), 100);
    s.rotate(SEC);
    let mut snap = s.snapshot(SEC);
    snap.window_ns = u128::from(SEC);
    let r = report(&snap, &enabled(&[Protocol::Goose]), 100.0, &DisplayFilter::default());
    let sub: Vec<&Row> = r.rows.iter().filter(|row| row.kind == RowKind::Subtotal).collect();
    assert_eq!(sub.len(), 1);
    assert_eq!(sub[0].cells[0], "Sum GOOSE");
    assert_eq!(bits_per_s(sub[0]), 1600.0);
}

#[test]
fn disabled_protocols_fold_into_other() {
    let mut s = Stats::new(0);
    s.record(&goose(11, 0x4041), 100);
    s.record(&ptp(), 100);
    s.rotate(SEC);
    let mut snap = s.snapshot(SEC);
    snap.window_ns = u128::from(SEC);

    // Nothing enabled: both protocols collapse into a single Other row.
    let r = report(&snap, &ProtocolSet::new(), 100.0, &DisplayFilter::default());
    let other: Vec<&Row> = r.rows.iter().filter(|row| row.kind == RowKind::Other).collect();
    assert_eq!(other.len(), 1);
    assert_eq!(bits_per_s(other[0]), 1600.0);
    assert!(!r.rows.iter().any(|row| row.kind == RowKind::Detail));

    // Enabling GOOSE moves only GOOSE out of Other.
    let r = report(&snap, &enabled(&[Protocol::Goose]), 100.0, &DisplayFilter::default());
    assert_eq!(r.rows.iter().filter(|row| row.kind == RowKind::Detail).count(), 1);
    let other: Vec<&Row> = r.rows.iter().filter(|row| row.kind == RowKind::Other).collect();
    assert_eq!(bits_per_s(other[0]), 800.0);
}

#[test]
fn total_is_the_last_row_and_sums_everything_shown() {
    let mut s = Stats::new(0);
    s.record(&goose(11, 0x4041), 100);
    s.record(&ptp(), 300);
    s.rotate(SEC);
    let mut snap = s.snapshot(SEC);
    snap.window_ns = u128::from(SEC);
    let r = report(&snap, &enabled(&[Protocol::Goose]), 100.0, &DisplayFilter::default());

    let total = r.rows.last().unwrap();
    assert_eq!(total.kind, RowKind::Total);
    assert_eq!(total.cells[0], "TOTAL");
    assert_eq!(bits_per_s(total), 3200.0); // (100 + 300) bytes * 8
}

#[test]
fn idle_protocols_stay_visible_without_a_rate() {
    let mut s = Stats::new(0);
    s.record(&goose(11, 0x4041), 100);
    s.rotate(SEC);
    s.rotate(2 * SEC); // a window with no traffic at all

    let snap = s.snapshot(2 * SEC);
    let r = report(&snap, &enabled(&[Protocol::Goose]), 100.0, &DisplayFilter::default());
    let idle: Vec<&Row> = r.rows.iter().filter(|row| row.kind == RowKind::Idle).collect();
    assert_eq!(idle.len(), 1);
    assert_eq!(idle[0].cells[9], "0.000 bit/s");
    assert!(idle[0].cells[10].starts_with("idle "));
    assert_eq!(idle[0].bytes, None);
}

#[test]
fn display_filter_hides_rows_without_recounting_them() {
    let mut s = Stats::new(0);
    s.record(&goose(11, 0x4041), 100);
    s.record(&goose(12, 0x4042), 100);
    s.rotate(SEC);
    let mut snap = s.snapshot(SEC);
    snap.window_ns = u128::from(SEC);

    let mut df = DisplayFilter::default();
    df.set(COL_VLAN, Some(set(&["11"])));
    let r = report(&snap, &enabled(&[Protocol::Goose]), 100.0, &df);

    let details: Vec<&Row> = r.rows.iter().filter(|row| row.kind == RowKind::Detail).collect();
    assert_eq!(details.len(), 1);
    assert_eq!(details[0].cells[COL_VLAN], "11");
    // One row left, so no subtotal, and the total reflects only what shows.
    assert!(!r.rows.iter().any(|row| row.kind == RowKind::Subtotal));
    assert_eq!(bits_per_s(r.rows.last().unwrap()), 800.0);
    // Both values remain offerable in the dropdown.
    assert_eq!(r.seen_values[&COL_VLAN].len(), 2);
}

#[test]
fn rows_keep_to_their_order() {
    let mut m = StatsMap::new();
    for (vlan, appid) in [(12, 1), (11, 2), (11, 1), (100, 0)] {
        let f = goose(vlan, appid);
        m.add(f.proto, StatKey::of(&f), Counter { packets: 1, bytes: 60 });
    }
    let snap = Snapshot::offline(m, u128::from(SEC), 4, 240);
    let rows = snap.stats.get(Protocol::Goose).unwrap();
    let at = display_order(rows);
    for w in at.windows(2) {
        let (a, b) = (&rows.entries()[w[0]].0, &rows.entries()[w[1]].0);
        assert_eq!(rank_rows(a, b), Rank::Before);
        assert_eq!(rank_rows(b, a), Rank::After);
    }
    let r = report(&snap, &enabled(&PROTO_ORDER), 100.0, &DisplayFilter::default());
    let shown: Vec<(&str, &str)> = r
        .rows
        .iter()
        .filter(|row| row.kind == RowKind::Detail)
        .map(|row| (row.cells[1].as_str(), row.cells[4].as_str()))
        .collect();
    assert_eq!(
        shown,
        vec![("11", "0x0001"), ("11", "0x0002"), ("12", "0x0001"), ("100", "0x0000")]
    );
}

#[test]
fn rows_fill_every_column() {
    let f = goose(11, 0x4041);
    let mut m = StatsMap::new();
    m.add(f.proto, StatKey::of(&f), Counter { packets: 1, bytes: 60 });
    let snap = Snapshot::offline(m, u128::from(SEC), 1, 60);
    let r = report(&snap, &enabled(&PROTO_ORDER), 100.0, &DisplayFilter::default());
    assert_eq!(
        r.rows[0].cells,
        ["GOOSE", "11", "0", "-", "0x4041", "GO1", "-", "-", "no", "480.000 bit/s", "0.0005"]
    );
    assert_eq!(r.rows.len(), 2);
    assert_eq!(r.rows[1].cells[1], "-");
    assert_eq!((r.packets, r.bytes, r.window_ns, r.is_session_total), (1, 60, u128::from(SEC), true));
    assert_eq!(COLUMNS.len(), 11);
    for c in FILTERABLE_COLUMNS {
        assert_eq!(r.seen_values[&c].items(), &vec![r.rows[0].cells[c].clone()]);
    }
}

#[test]
fn display_filters_are_set_and_cleared() {
    let mut df = DisplayFilter::default();
    assert!(df.is_empty() && !df.is_active(COL_VLAN));
    df.set(COL_VLAN, Some(set(&["1", "2"])));
    assert!(df.is_active(COL_VLAN) && !df.is_empty());
    assert_eq!(df.allowed(COL_VLAN).unwrap().len(), 2);
    df.set(COL_VLAN, None);
    assert!(df.is_empty());
    df.set(0, Some(set(&[])));
    df.clear();
    assert!(df.allowed(0).is_none());
}

#[test]
fn a_filtered_table_is_part_of_the_whole() {
    let mut s = Stats::new(0);
    s.record(&ptp(), 70);
    s.rotate(SEC);
    s.record(&goose(11, 1), 100);
    s.record(&goose(12, 2), 200);
    s.record(&goose(11, 3), 300);
    s.record(&Frame::default(), 50);
    s.rotate(2 * SEC);
    let snap = s.snapshot(2 * SEC);
    let on = enabled(&[Protocol::Goose, Protocol::Ptp]);
    let whole = report(&snap, &on, 100.0, &DisplayFilter::default());
    let plain = |r: &Report| -> Vec<Vec<String>> {
        r.rows
            .iter()
            .filter(|row| !matches!(row.kind, RowKind::Subtotal | RowKind::Total))
            .map(|row| row.cells.to_vec())
            .collect()
    };
    assert_eq!(plain(&whole).len(), 5);
    for values in [&["11"][..], &["-"], &["12", "-"], &[]] {
        let mut filter = DisplayFilter::default();
        filter.set(COL_VLAN, Some(set(values)));
        let part = report(&snap, &on, 100.0, &filter);
        let mut wanted = plain(&whole);
        wanted.retain(|cells| values.contains(&cells[COL_VLAN].as_str()));
        assert_eq!(plain(&part), wanted);
        assert_eq!(part.seen_values[&COL_VLAN].items(), whole.seen_values[&COL_VLAN].items());
        assert_eq!((part.packets, part.bytes), (whole.packets, whole.bytes));
    }
}

#[test]
fn breaking_out_keeps_the_total() {
    let mut s = Stats::new(0);
    s.record(&goose(11, 1), 100);
    s.record(&ptp(), 300);
    s.record(&Frame::default(), 50);
    s.rotate(SEC);
    let snap = s.snapshot(SEC);
    for on in [&[][..], &[Protocol::Goose], &[Protocol::Goose, Protocol::Ptp]] {
        let r = report(&snap, &enabled(on), 100.0, &DisplayFilter::default());
        let total = r.rows.last().unwrap();
        assert_eq!((total.kind, total.cells[0].as_str(), total.bytes), (RowKind::Total, "TOTAL", Some(450)));
        assert_eq!(r.rows.iter().filter(|row| row.kind == RowKind::Total).count(), 1);
    }
}
