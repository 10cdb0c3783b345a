//! Rolling-window statistics.
use nlm::classify::parse_frame;
use nlm::consts::{BATCH_NS, BATCH_PKTS};
use nlm::counts::{Counter, KeyMap, StatKey, StatsMap};
use nlm::filter::{parse_vlans, FrameFilter};
use nlm::parse::{Frame, Protocol};
use nlm::stats::{BatchAccum, Snapshot, Stats, TimeSpan, MIN_WINDOW_NS, NS_PER_SEC};

const SEC: u64 = 1_000_000_000;
const MS: u64 = 1_000_000;

fn ptp_frame(vlan: Option<u16>) -> Frame {
    let mut raw = vec![0xFFu8; 12];
    if let Some(id) = vlan {
        raw.extend_from_slice(&[0x81, 0x00]);
        raw.extend_from_slice(&[(id >> 8) as u8 & 0x0F, (id & 0xFF) as u8]);
    }
    raw.extend_from_slice(&[0x88, 0xF7, 0x00, 0x00]);
    parse_frame(&raw)
}

fn bytes_of(rows: &KeyMap) -> u64 {
    rows.entries().iter().map(|e| e.1.bytes).sum()
}

#[test]
fn separate_keys_get_separate_rows() {
    let mut s = Stats::new(0);
    s.record(&ptp_frame(Some(11)), 100);
    s.record(&ptp_frame(Some(11)), 100);
    s.record(&ptp_frame(Some(12)), 50);
    s.rotate(SEC);

    let snap = s.snapshot(SEC);
    let rows = snap.stats.get(Protocol::Ptp).unwrap();
    assert_eq!(rows.len(), 2);
    let total: u64 = bytes_of(rows);
    assert_eq!(total, 250);
    assert_eq!(snap.packets, 3);
    assert_eq!(snap.bytes, 250);
}

#[test]
fn rotation_moves_current_to_display_and_clears_current() {
    let mut s = Stats::new(0);
    s.record(&ptp_frame(None), 64);
    // Nothing is displayed until a window closes.
    assert!(s.snapshot(0).stats.is_empty());

    s.rotate(SEC);
    assert_eq!(s.snapshot(SEC).stats.get(Protocol::Ptp).unwrap().len(), 1);

    // A second rotation with no traffic empties the display...
    s.rotate(2 * SEC);
    assert!(s.snapshot(2 * SEC).stats.get(Protocol::Ptp).is_none_or(|k| k.is_empty()));
    // ...but the session total still holds it, and it is reported idle.
    assert_eq!(s.session_snapshot(2 * SEC).stats.get(Protocol::Ptp).unwrap().len(), 1);
    assert_eq!(s.snapshot(2 * SEC).idle.len(), 1);
    assert_eq!(s.snapshot(2 * SEC).idle[0].0, Protocol::Ptp);
    assert_eq!(s.snapshot(5 * SEC).idle[0].2, 4 * SEC);
}

#[test]
fn session_totals_survive_many_rotations() {
    let mut s = Stats::new(0);
    for i in 0..5 {
        s.record(&ptp_frame(None), 100);
        s.rotate(i * SEC);
    }
    let session = s.session_snapshot(5 * SEC);
    assert_eq!(bytes_of(session.stats.get(Protocol::Ptp).unwrap()), 500);
    assert_eq!(session.packets, 5);
    assert!(session.is_session_total);
    assert_eq!(session.window_ns, u128::from(5 * SEC));
}

#[test]
fn batches_pre_aggregate_before_merging() {
    let mut s = Stats::new(0);
    let mut batch = BatchAccum::new(3, 60 * SEC, 0);
    assert!(!batch.push(&ptp_frame(None), 10, None, 0));
    assert!(!batch.push(&ptp_frame(None), 10, None, 0));
    assert!(batch.push(&ptp_frame(None), 10, None, 0)); // full at 3

    let taken = batch.take(0);
    // Identical frames collapse to one key before the lock is taken.
    assert_eq!(taken.stats.get(Protocol::Ptp).unwrap().len(), 1);
    assert_eq!(taken.packets, 3);
    assert_eq!(taken.bytes, 30);
    assert!(batch.is_empty());

    s.merge_batch(&taken);
    s.rotate(SEC);
    let snap = s.snapshot(SEC);
    assert_eq!(snap.packets, 3);
    assert_eq!(snap.stats.get(Protocol::Ptp).unwrap().entries()[0].1.packets, 3);
}

/// A backend that buffers must not inflate the reported rate.
///
/// `dumpcap` pipes frames to us in chunks, so a single read can carry several
/// seconds of traffic. Dividing that by the wall-clock window it happened to
/// land in would report a multiple of the real link load: the whole point of
/// the timestamps.
#[test]
fn buffered_delivery_is_measured_over_the_time_it_covers() {
    let mut s = Stats::new(0);
    let mut batch = BatchAccum::new(1000, 60 * SEC, 0);
    // 10 seconds of capture time delivered in one go.
    for i in 0..10 {
        batch.push(&ptp_frame(None), 1000, Some(u128::from(1_000_000 * SEC + i * SEC)), 0);
    }
    s.merge_batch(&batch.take(0));
    s.rotate(0);

    let snap = s.snapshot(0);
    // The wall-clock window here is near zero; the span is 9 seconds.
    let window_secs = snap.window_ns as f64 / 1e9;
    assert!(
        (window_secs - 9.0).abs() < 0.5,
        "expected ~9s of coverage, got {}",
        window_secs
    );
    assert_eq!(snap.window_ns, u128::from(9 * SEC));
}

/// The converse: a couple of frames close together are a trickle across the
/// window, not a burst measured over the microseconds between them.
#[test]
fn sparse_frames_are_measured_over_the_whole_window() {
    let mut s = Stats::new(0);
    let mut batch = BatchAccum::new(1000, 60 * SEC, 0);
    batch.push(&ptp_frame(None), 100, Some(u128::from(1_000_000 * SEC)), 0);
    batch.push(&ptp_frame(None), 100, Some(u128::from(1_000_000 * SEC + MS)), 0);
    s.merge_batch(&batch.take(0));

    s.rotate(120 * MS);

    let snap = s.snapshot(120 * MS);
    let window_secs = snap.window_ns as f64 / 1e9;
    assert!(
        window_secs >= 0.1,
        "a 1 ms span must not shrink the window to 1 ms: got {}",
        window_secs
    );
}

#[test]
fn timestamps_are_ignored_when_a_backend_supplies_none() {
    let mut s = Stats::new(0);
    let mut batch = BatchAccum::new(1000, 60 * SEC, 0);
    batch.push(&ptp_frame(None), 100, None, 0);
    s.merge_batch(&batch.take(0));
    s.rotate(60 * MS);
    // Falls back cleanly to the wall-clock window.
    let w = s.snapshot(60 * MS).window_ns as f64 / 1e9;
    assert!((0.05..5.0).contains(&w), "unexpected window {w}");
}

#[test]
fn windows_never_shrink_to_nothing() {
    let mut s = Stats::new(7);
    s.rotate(7);
    assert_eq!(s.snapshot(7).window_ns, MIN_WINDOW_NS);
    // A clock that goes backwards is no elapsed time.
    s.rotate(3);
    assert_eq!(s.snapshot(3).window_ns, MIN_WINDOW_NS);
    assert_eq!(s.uptime_secs(7 + 90 * NS_PER_SEC), 90);
    assert_eq!(s.uptime_secs(0), 0);
}

#[test]
fn spans_cover_the_earliest_to_the_latest() {
    let mut a = TimeSpan::default();
    assert_eq!(a.nanos(), None);
    a.observe(Some(0));
    assert_eq!(a, TimeSpan::default());
    a.observe(Some(20));
    assert_eq!(a.nanos(), None);
    a.observe(Some(5));
    assert_eq!(a.nanos(), Some(15));
    let mut b = TimeSpan::default();
    b.observe(Some(40));
    a.merge(b);
    a.observe(None);
    assert_eq!(a, TimeSpan { min: Some(5), max: Some(40) });
}

#[test]
fn a_batch_fills_by_count_or_by_time() {
    let mut b = BatchAccum::new(BATCH_PKTS, BATCH_NS, 0);
    assert!(!b.push(&ptp_frame(None), 1, None, BATCH_NS - 1));
    assert!(!b.is_full(BATCH_NS - 1) && b.is_full(BATCH_NS));
    assert!(b.push(&ptp_frame(None), 1, None, BATCH_NS));
    b.take(BATCH_NS);
    for _ in 1..BATCH_PKTS {
        assert!(!b.push(&ptp_frame(None), 1, None, BATCH_NS));
    }
    assert!(b.push(&ptp_frame(None), 1, None, BATCH_NS));
    assert!(b.has_room(u64::MAX - 200) && !b.has_room(u64::MAX - 199));
}

#[test]
fn batching_equals_recording() {
    let frames = [ptp_frame(None), ptp_frame(Some(1)), ptp_frame(None), ptp_frame(Some(2))];
    let mut one = Stats::new(0);
    let mut two = Stats::new(0);
    let mut batch = BatchAccum::new(10, SEC, 0);
    for (i, f) in frames.iter().enumerate() {
        one.record(f, i as u64 + 60);
        batch.push(f, i as u64 + 60, None, 0);
    }
    two.merge_batch(&batch.take(0));
    assert_eq!(one.totals(), two.totals());
    let (a, b) = (one.session_snapshot(SEC), two.session_snapshot(SEC));
    let rows = a.stats.get(Protocol::Ptp).unwrap();
    for (key, c) in rows.entries() {
        assert_eq!(b.stats.get(Protocol::Ptp).unwrap().get(key), Some(*c));
    }
    assert_eq!(rows.len(), b.stats.get(Protocol::Ptp).unwrap().len());
    assert_eq!(rows.total(), Some(Counter { packets: 4, bytes: 246 }));
}

#[test]
fn counters_add_up() {
    let mut c = Counter::default();
    c.add(60);
    c.merge(Counter { packets: 2, bytes: 5 });
    assert_eq!(c, Counter { packets: 3, bytes: 65 });
    let mut m = StatsMap::new();
    m.add(Protocol::Ptp, StatKey::of(&ptp_frame(None)), c);
    m.add(Protocol::Ptp, StatKey::of(&ptp_frame(None)), c);
    let mut n = StatsMap::new();
    n.add(Protocol::Arp, StatKey::of(&ptp_frame(None)), c);
    n.merge(&m);
    assert_eq!(n.total(), Some(Counter { packets: 9, bytes: 195 }));
    assert_eq!(n.protocols().len(), 2);
    assert!(StatKey::of(&ptp_frame(None)).same(&StatKey::of(&ptp_frame(None))));
    assert!(!StatKey::of(&ptp_frame(None)).same(&StatKey::of(&ptp_frame(Some(1)))));
}

#[test]
fn room_is_told_before_it_is_needed() {
    let mut s = Stats::new(0);
    assert!(s.has_room(u64::MAX, u64::MAX));
    s.record(&ptp_frame(None), u64::MAX);
    assert!(s.has_room(1, 0) && !s.has_room(0, 1));
}

#[test]
fn offline_statistics_stand_in_for_a_window() {
    let mut m = StatsMap::new();
    m.add(Protocol::Ptp, StatKey::of(&ptp_frame(None)), Counter { packets: 2, bytes: 120 });
    let snap = Snapshot::offline(m.clone(), u128::from(3 * SEC), 2, 120);
    assert_eq!((snap.packets, snap.bytes, snap.window_ns), (2, 120, u128::from(3 * SEC)));
    assert!(snap.idle.is_empty());
    let mut s = Stats::new(0);
    s.set_offline(m, u128::from(3 * SEC), 2, 120);
    assert_eq!(s.totals(), (2, 120));
    assert_eq!(s.snapshot(SEC).stats.get(Protocol::Ptp).unwrap().len(), 1);
}

#[test]
fn a_filter_survives_cloning() {
    let f = FrameFilter { vlans: Some(parse_vlans("7").unwrap()), ..Default::default() };
    assert!(f.clone().matches(&ptp_frame(Some(7))) && !f.clone().matches(&ptp_frame(Some(8))));
}

#[test]
fn a_protocol_is_idle_once() {
    let mut s = Stats::new(0);
    for t in 1..=4 {
        s.record(&ptp_frame(None), 60 * t);
        s.rotate(t * SEC);
        assert!(s.snapshot(t * SEC).idle.is_empty());
    }
    s.rotate(5 * SEC);
    let snap = s.snapshot(7 * SEC);
    assert_eq!(snap.idle.len(), 1);
    assert_eq!((snap.idle[0].0, snap.idle[0].2), (Protocol::Ptp, 3 * SEC));
    assert_eq!(snap.idle[0].1.total(), Some(Counter { packets: 1, bytes: 240 }));
}

#[test]
fn rows_need_room_one_by_one() {
    // Two rows that together count more than one counter holds.
    let half = Counter { packets: 1, bytes: u64::MAX / 2 + 1 };
    let mut m = StatsMap::new();
    m.add(Protocol::Ptp, StatKey::of(&ptp_frame(None)), half);
    let mut n = StatsMap::new();
    n.add(Protocol::Ptp, StatKey::of(&ptp_frame(Some(1))), half);
    n.merge(&m);
    assert_eq!(n.get(Protocol::Ptp).unwrap().len(), 2);
    assert_eq!(n.total(), None);
}

#[test]
fn uptime_of_a_file_saturates() {
    let snap = Snapshot::offline(StatsMap::new(), u128::MAX, 0, 0);
    assert_eq!((snap.uptime_secs, snap.window_ns), (u64::MAX, u128::MAX));
    assert_eq!(Snapshot::offline(StatsMap::new(), 2_900_000_000, 0, 0).uptime_secs, 2);
}

#[test]
fn a_window_shows_what_came_in() {
    let mut s = Stats::new(0);
    s.record(&ptp_frame(None), 1);
    s.rotate(SEC);
    s.record(&ptp_frame(None), 60);
    let mut batch = BatchAccum::new(10, SEC, 0);
    batch.push(&ptp_frame(None), 40, None, 0);
    batch.push(&ptp_frame(Some(3)), 7, None, 0);
    s.merge_batch(&batch.take(0));
    // Nothing new is displayed before the window closes.
    assert_eq!(s.snapshot(SEC).stats.total(), Some(Counter { packets: 1, bytes: 1 }));
    let totals = s.totals();
    s.rotate(2 * SEC);
    let snap = s.snapshot(2 * SEC);
    let rows = snap.stats.get(Protocol::Ptp).unwrap();
    assert_eq!(
        rows.get(&StatKey::of(&ptp_frame(None))),
        Some(Counter { packets: 2, bytes: 100 })
    );
    assert_eq!(
        rows.get(&StatKey::of(&ptp_frame(Some(3)))),
        Some(Counter { packets: 1, bytes: 7 })
    );
    assert_eq!(s.totals(), totals);
    assert_eq!(totals, (4, 108));
}
