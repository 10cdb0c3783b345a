//! How the counting engine and the capture in front of it keep time and count.
use crate::capture;
use crate::capture::{Backend, NextStep, Received};
use crate::consts::{BATCH_NS, BATCH_PKTS, PCAP_PROGRESS_EVERY};
use crate::counts;
use crate::counts::Counter;
use crate::parse;
use crate::parse::{Protocol, PROTO_ORDER};
use crate::report;
use crate::report::RowKind;
use crate::row_laws;
use crate::stats;
use crate::stats::{MIN_WINDOW_NS, NS_PER_SEC};
use vstd::prelude::*;

verus! {

// ---- Time ---------------------------------------------------------------------------------------

/// What has passed since a moment is the difference of the clock, and nothing
/// where the clock went back.
pub proof fn law_time_passes(from: u64, to: u64)
    ensures
        to >= from ==> from + stats::elapsed(from, to) == to,
        to < from ==> stats::elapsed(from, to) == 0,
{
}

/// A second has a billion nanoseconds, and no window is below a millisecond. A
/// batch is handed over after 200 packets or a tenth of a second, and a load
/// tells its progress every 2000 packets.
pub proof fn law_limits()
    ensures
        NS_PER_SEC == 1_000_000_000,
        MIN_WINDOW_NS == 1_000_000,
        BATCH_PKTS == 200,
        BATCH_NS == 100_000_000,
        PCAP_PROGRESS_EVERY == 2000,
{
}

/// The whole seconds of a time, which saturate.
pub proof fn law_whole_seconds(ns: u128)
    ensures
        ns < 1_000_000_000 * 0x1_0000_0000_0000_0000 ==> stats::whole_seconds(ns) * 1_000_000_000
            <= ns < (stats::whole_seconds(ns) + 1) * 1_000_000_000,
        ns >= 1_000_000_000 * 0x1_0000_0000_0000_0000 ==> stats::whole_seconds(ns)
            == 0xFFFF_FFFF_FFFF_FFFF,
{
}

/// A timestamp of zero is none; any other one widens a span to itself and to
/// nothing else.
pub proof fn law_a_timestamp_widens_a_span(s: stats::TimeSpan, t: u128)
    requires
        s.min is Some == s.max is Some,
    ensures
        stats::widened(s, None) == s,
        stats::widened(s, Some(0)) == s,
        t > 0 ==> ({
            let w = stats::widened(s, Some(t));
            &&& w.min is Some && w.max is Some
            &&& w.min->0 <= t && t <= w.max->0
            &&& s.min is None ==> w.min->0 == t && w.max->0 == t
            &&& s.min is Some ==> w.min->0 <= s.min->0 && w.max->0 >= s.max->0
            &&& s.min is Some ==> (w.min->0 == t || w.min->0 == s.min->0) && (w.max->0 == t
                || w.max->0 == s.max->0)
        }),
{
}

/// What a span covers is the time between its ends.
pub proof fn law_a_span_covers_its_ends(a: u128, b: u128)
    requires
        a <= b,
    ensures
        a + stats::covered(stats::TimeSpan { min: Some(a), max: Some(b) }) == b,
        stats::covered(stats::no_span()) == 0,
{
}

// ---- Batches ------------------------------------------------------------------------------------

/// A batch is full at its number of packets, or when it has been open for its
/// time; and not before.
pub proof fn law_batches_fill_by_count_or_time(b: stats::BatchAccumView, now: u64)
    ensures
        b.packets >= b.max_pkts ==> stats::batch_full(b, now),
        now >= b.since && now - b.since >= b.max_ns ==> stats::batch_full(b, now),
        stats::batch_full(b, now) && b.max_ns > 0 ==> b.packets >= b.max_pkts || now >= b.since
            + b.max_ns,
{
}

/// Folding a frame into a batch counts it once with its size: in the totals, in
/// the row with its labels and in no other.
pub proof fn law_a_batch_counts_a_frame_in_its_row(
    b: stats::BatchAccumView,
    f: parse::FrameView,
    size: u64,
    ts: Option<u128>,
    p: Protocol,
    k: counts::StatKeyView,
)
    requires
        counts::valid_stats(b.stats),
        counts::packets_over(b.stats) < u64::MAX,
        counts::bytes_over(b.stats) + size <= u64::MAX,
        b.packets < u64::MAX,
        b.bytes + size <= u64::MAX,
    ensures
        ({
            let a = stats::batch_with(b, f, size, ts);
            let mine = p == f.proto && row_laws::is_row_of(k, f);
            &&& a.packets == b.packets + 1
            &&& a.bytes == b.bytes + size
            &&& a.span == stats::widened(b.span, ts)
            &&& a.since == b.since && a.max_pkts == b.max_pkts && a.max_ns == b.max_ns
            &&& counts::tally_of(a.stats, p, k).packets == counts::tally_of(b.stats, p, k).packets
                + (if mine {
                1int
            } else {
                0
            })
            &&& counts::tally_of(a.stats, p, k).bytes == counts::tally_of(b.stats, p, k).bytes + (
            if mine {
                size as int
            } else {
                0
            })
        }),
{
    let key = counts::key_of(f);
    counts::lemma_tally_of_within(b.stats, f.proto, key);
    counts::lemma_counted(b.stats, f.proto, key, counts::packet(size));
    assert(row_laws::is_row_of(k, f) ==> k == key);
}

/// A batch that was handed over starts anew: empty, from now on, with the same
/// limits.
pub proof fn law_a_batch_starts_anew(b: stats::BatchAccumView, now: u64)
    ensures
        ({
            let o = capture::opened(b, now);
            &&& o.stats.len() == 0 && o.packets == 0 && o.bytes == 0
            &&& o.span.min is None && o.span.max is None
            &&& o.since == now
            &&& o.max_pkts == b.max_pkts && o.max_ns == b.max_ns
        }),
{
}

// ---- Windows ------------------------------------------------------------------------------------

/// A protocol silent in a window keeps the rows that it was last seen with, and
/// the time it was seen: however many windows pass, it stays idle with these.
pub proof fn law_idle_protocols_are_remembered(
    s: stats::StatsView,
    t: u64,
    e: (Protocol, Seq<(counts::StatKeyView, Counter)>, u64),
)
    requires
        stats::actives_distinct(s.last_active),
        counts::protocols_distinct(s.cur),
        s.last_active.contains(e),
        counts::rows_of(s.cur, e.0).len() == 0,
    ensures
        stats::rotated(s, t).last_active.contains(e),
        stats::actives_distinct(stats::rotated(s, t).last_active),
{
    stats::lemma_refreshed(s.last_active, s.cur, t, e.0);
}

/// Protocols that carry traffic in the displayed window are not idle.
pub proof fn law_active_protocols_are_not_idle(
    las: Seq<(Protocol, Seq<(counts::StatKeyView, Counter)>, u64)>,
    disp: Seq<(Protocol, Seq<(counts::StatKeyView, Counter)>)>,
    now: u64,
    i: int,
)
    requires
        0 <= i < stats::idle_rows(las, disp, now).len(),
    ensures
        counts::rows_of(disp, stats::idle_rows(las, disp, now)[i].0).len() == 0,
        exists|j: int|
            0 <= j < las.len() && {
                let e = #[trigger] las[j];
                stats::idle_rows(las, disp, now)[i] == (e.0, e.1, stats::elapsed(e.2, now))
            },
    decreases las.len(),
{
    let front = stats::idle_rows(las.drop_last(), disp, now);
    if i < front.len() {
        law_active_protocols_are_not_idle(las.drop_last(), disp, now, i);
        let j = choose|j: int|
            0 <= j < las.drop_last().len() && {
                let e = #[trigger] las.drop_last()[j];
                front[i] == (e.0, e.1, stats::elapsed(e.2, now))
            };
        assert(las[j] == las.drop_last()[j]);
        assert(stats::idle_rows(las, disp, now)[i] == front[i]);
    } else {
        assert(las[las.len() - 1] == las.last());
    }
}

// ---- Reports ------------------------------------------------------------------------------------

/// Breaking one more protocol out takes exactly its bytes out of `Other`.
pub proof fn law_other_loses_what_is_broken_out(s: report::Scene, p: Protocol)
    requires
        PROTO_ORDER@.contains(p),
        !s.enabled.contains(p),
    ensures
        report::other_bytes(report::Scene { enabled: s.enabled.insert(p), ..s })
            + counts::bytes_in(counts::rows_of(s.stats, p)) == report::other_bytes(s),
{
    row_laws::law_protocols_stand_in_order();
    lemma_folded(s, p, PROTO_ORDER@.len() as int);
    assert(PROTO_ORDER@.take(PROTO_ORDER@.len() as int) =~= PROTO_ORDER@);
}

proof fn lemma_folded(s: report::Scene, p: Protocol, n: int)
    requires
        0 <= n <= PROTO_ORDER@.len(),
        !s.enabled.contains(p),
        PROTO_ORDER@ == seq![
            Protocol::Goose,
            Protocol::SampledValues,
            Protocol::RGoose,
            Protocol::Ptp,
            Protocol::Mms,
            Protocol::Dnp3,
            Protocol::Iec104,
            Protocol::ModbusTcp,
        ],
    ensures
        report::folded_bytes(report::Scene { enabled: s.enabled.insert(p), ..s }, n) + (
        if PROTO_ORDER@.take(n).contains(p) {
            counts::bytes_in(counts::rows_of(s.stats, p))
        } else {
            0
        }) == report::folded_bytes(s, n),
    decreases n,
{
    if n > 0 {
        lemma_folded(s, p, n - 1);
        let q = PROTO_ORDER@[n - 1];
        let a = PROTO_ORDER@.take(n);
        let b = PROTO_ORDER@.take(n - 1);
        assert(a[n - 1] == q);
        if q == p {
            assert(!b.contains(p)) by {
                if b.contains(p) {
                    let i = b.index_of(p);
                    assert(PROTO_ORDER@[i] == p);
                }
            }
        } else {
            assert(a.contains(p) <==> b.contains(p)) by {
                if a.contains(p) {
                    let i = a.index_of(p);
                    assert(b[i] == p);
                }
                if b.contains(p) {
                    let i = b.index_of(p);
                    assert(a[i] == p);
                }
            }
        }
    } else {
        assert(!PROTO_ORDER@.take(0).contains(p));
    }
}

/// A sum below a protocol's rows is named after it, and the row of everything
/// else `Other`.
pub proof fn law_sums_are_named(s: report::Scene, p: Protocol)
    ensures
        report::section(s, p) != report::shown(s, p) ==> report::section(s, p).last().cells[0]
            == "Sum "@ + parse::protocol_name(p) && report::section(s, p).last().kind
            == RowKind::Subtotal,
        report::other_row(s).cells[0] == "Other"@,
        report::other_row(s).kind == RowKind::Other,
        report::total_row(s).cells[0] == "TOTAL"@,
        counts::rows_of(s.stats, p).len() > 0 && report::shown(s, p).len() > 1 ==> report::section(
            s,
            p,
        ).len() == report::shown(s, p).len() + 1,
        counts::rows_of(s.stats, p).len() == 0 || report::shown(s, p).len() <= 1 ==> report::section(
            s,
            p,
        ) == report::shown(s, p),
{
}

/// Protocols are named as operators know them.
pub proof fn law_protocols_are_named()
    ensures
        parse::protocol_name(Protocol::Goose) == "GOOSE"@,
        parse::protocol_name(Protocol::SampledValues) == "Sampled Values"@,
        parse::protocol_name(Protocol::RGoose) == "R-GOOSE"@,
        parse::protocol_name(Protocol::RSv) == "R-SV"@,
        parse::protocol_name(Protocol::Ptp) == "PTP"@,
        parse::protocol_name(Protocol::Mms) == "MMS"@,
        parse::protocol_name(Protocol::Dnp3) == "DNP3"@,
        parse::protocol_name(Protocol::Iec104) == "IEC104"@,
        parse::protocol_name(Protocol::ModbusTcp) == "Modbus TCP"@,
        parse::protocol_name(Protocol::Gsse) == "GSSE"@,
        parse::protocol_name(Protocol::Ntp) == "NTP"@,
        parse::protocol_name(Protocol::Lldp) == "LLDP"@,
        parse::protocol_name(Protocol::Rstp) == "RSTP"@,
        parse::protocol_name(Protocol::Arp) == "ARP"@,
        parse::protocol_name(Protocol::Ipv4) == "IPv4"@,
        parse::protocol_name(Protocol::Ipv6) == "IPv6"@,
        parse::protocol_name(Protocol::Other) == "Other"@,
{
}

/// The flags that break a protocol out are named after it.
pub proof fn law_flags_are_named()
    ensures
        parse::protocol_flag(Protocol::Goose) == Some("goose"@),
        parse::protocol_flag(Protocol::SampledValues) == Some("sv"@),
        parse::protocol_flag(Protocol::RGoose) == Some("rgoose"@),
        parse::protocol_flag(Protocol::Ptp) == Some("ptp"@),
        parse::protocol_flag(Protocol::Mms) == Some("mms"@),
        parse::protocol_flag(Protocol::Dnp3) == Some("dnp3"@),
        parse::protocol_flag(Protocol::Iec104) == Some("iec104"@),
        parse::protocol_flag(Protocol::ModbusTcp) == Some("modbus"@),
        forall|p: Protocol| !PROTO_ORDER@.contains(p) ==> #[trigger] parse::protocol_flag(p) is None,
{
    let o = PROTO_ORDER@;
    row_laws::law_protocols_stand_in_order();
    assert(o[0] == Protocol::Goose && o[1] == Protocol::SampledValues && o[2] == Protocol::RGoose
        && o[3] == Protocol::Ptp && o[4] == Protocol::Mms && o[5] == Protocol::Dnp3 && o[6]
        == Protocol::Iec104 && o[7] == Protocol::ModbusTcp);
}

// ---- The capture thread -------------------------------------------------------------------------

/// Every read has one answer: bytes and records are delivered in full, nothing
/// is idleness, the end finishes without a complaint, and so does a failure that
/// came of stopping; any other failure finishes with its reason.
pub proof fn law_every_read_has_one_answer(r: NextStep, why: Seq<char>, n: usize, e: String)
    ensures
        forall|stopping: bool| #[trigger]
            capture::is_next(r, Received::Bytes(n), stopping, why) <==> (if n > 0 {
                r == NextStep::Deliver(n)
            } else {
                r is Idle
            }),
        forall|stopping: bool| #[trigger]
            capture::is_next(r, Received::Record(n), stopping, why) <==> r == NextStep::Deliver(n),
        forall|stopping: bool| #[trigger]
            capture::is_next(r, Received::Nothing, stopping, why) <==> r is Idle,
        forall|stopping: bool| #[trigger]
            capture::is_next(r, Received::Ended, stopping, why) <==> r == NextStep::Finish(None),
        capture::is_next(r, Received::Failed(e), true, why) <==> r == NextStep::Finish(None),
        capture::is_next(r, Received::Failed(e), false, why) <==> r is Finish && r->Finish_0 is Some
            && r->Finish_0->0@ == why + ": "@ + e@,
{
}

/// A backend is named by what it is, and `dumpcap` by where it was found.
pub proof fn law_backends_are_named(path: String)
    ensures
        capture::backend_name(Backend::RawSocket) == "raw socket"@,
        capture::backend_name(Backend::Dumpcap(path)) == "dumpcap ("@ + path@ + ")"@,
{
}

/// The length of a window is the longest of three times: what passed on the clock
/// since it opened, what its timestamps cover, and a millisecond. Closing it opens
/// the next one now, without any timestamp.
pub proof fn law_closing_a_window_measures_it(s: stats::StatsView, now: u64)
    ensures
        ({
            let r = stats::rotated(s, now);
            let clock = if now >= s.win_start {
                now - s.win_start
            } else {
                0
            };
            &&& r.win_ns >= clock && r.win_ns >= stats::covered(s.cur_span) && r.win_ns >= 1_000_000
            &&& r.win_ns == clock || r.win_ns == stats::covered(s.cur_span) || r.win_ns == 1_000_000
            &&& r.win_start == now
            &&& r.cur_span.min is None && r.cur_span.max is None
            &&& r.started == s.started
            &&& r.disp == s.cur
            &&& r.cur.len() == 0
        }),
{
}

/// Merging a batch widens the window's span to the batch's.
pub proof fn law_merging_widens_the_span(
    s: stats::StatsView,
    rows: Seq<(Protocol, Seq<(counts::StatKeyView, Counter)>)>,
    packets: u64,
    bytes: u64,
    a: u128,
    b: u128,
)
    requires
        0 < a <= b,
        s.cur_span.min is Some == s.cur_span.max is Some,
        s.cur_span.min is Some ==> s.cur_span.min->0 <= s.cur_span.max->0,
    ensures
        ({
            let span = stats::TimeSpan { min: Some(a), max: Some(b) };
            let m = stats::batch_merged(s, rows, packets, bytes, span).cur_span;
            &&& m.min is Some && m.max is Some
            &&& m.min->0 <= a && b <= m.max->0
            &&& s.cur_span.min is None ==> m == span
            &&& s.cur_span.min is Some ==> m.min->0 <= s.cur_span.min->0 && s.cur_span.max->0
                <= m.max->0 && (m.min->0 == a || m.min->0 == s.cur_span.min->0) && (m.max->0 == b
                || m.max->0 == s.cur_span.max->0)
        }),
        stats::batch_merged(s, rows, packets, bytes, stats::no_span()).cur_span == s.cur_span,
{
}

/// A fresh engine has counted nothing, and starts now.
pub proof fn law_an_engine_starts_empty(now: u64)
    ensures
        ({
            let f = stats::fresh(now);
            &&& f.cur.len() == 0 && f.disp.len() == 0 && f.session.len() == 0
            &&& f.last_active.len() == 0
            &&& f.packets == 0 && f.bytes == 0
            &&& f.win_start == now && f.started == now
            &&& f.cur_span.min is None && f.cur_span.max is None
        }),
{
}

/// Sums, `Other` and the total show the rate and load that their bytes amount to.
pub proof fn law_sums_are_measured(s: report::Scene, p: Protocol)
    requires
        report::bytes_of(report::shown(s, p)) <= u64::MAX,
        report::other_bytes(s) <= u64::MAX,
        report::total_bytes(s) <= u64::MAX,
    ensures
        report::section(s, p) != report::shown(s, p) ==> ({
            let r = report::section(s, p).last();
            let b = report::bytes_of(report::shown(s, p)) as u64;
            r.bytes == Some(b) && r.cells[9] == (s.meter)(b).rate && r.cells[10] == (s.meter)(
                b,
            ).load && r.level == (s.meter)(b).level
        }),
        ({
            let r = report::other_row(s);
            let b = report::other_bytes(s) as u64;
            r.bytes == Some(b) && r.cells[9] == (s.meter)(b).rate && r.cells[10] == (s.meter)(
                b,
            ).load && r.level == (s.meter)(b).level
        }),
        ({
            let r = report::total_row(s);
            let b = report::total_bytes(s) as u64;
            r.bytes == Some(b) && r.cells[9] == (s.meter)(b).rate && r.cells[10] == (s.meter)(
                b,
            ).load && r.level == (s.meter)(b).level
        }),
{
}

/// What is on offer for filtering are the rows of every broken-out protocol, and
/// the row of everything else where there is anything.
pub proof fn law_every_row_is_on_offer(s: report::Scene, row: report::RowView)
    ensures
        report::all_offered(s).contains(row) <==> {
            ||| report::other_bytes(s) > 0 && row == report::other_row(s)
            ||| exists|i: int|
                0 <= i < PROTO_ORDER@.len() && s.enabled.contains(#[trigger] PROTO_ORDER@[i])
                    && report::candidates(s, PROTO_ORDER@[i]).contains(row)
        },
{
    let n = PROTO_ORDER@.len() as int;
    lemma_offered(s, row, n);
    let parts = report::offered(s, n);
    let all = report::all_offered(s);
    if report::other_bytes(s) > 0 {
        assert(all[parts.len() as int] == report::other_row(s));
        if all.contains(row) {
            let i = all.index_of(row);
            if i < parts.len() {
                assert(parts[i] == row);
            }
        }
        if parts.contains(row) {
            let i = parts.index_of(row);
            assert(all[i] == row);
        }
    }
}

proof fn lemma_offered(s: report::Scene, row: report::RowView, n: int)
    requires
        0 <= n <= PROTO_ORDER@.len(),
    ensures
        report::offered(s, n).contains(row) <==> exists|i: int|
            0 <= i < n && s.enabled.contains(#[trigger] PROTO_ORDER@[i]) && report::candidates(
                s,
                PROTO_ORDER@[i],
            ).contains(row),
    decreases n,
{
    if n > 0 {
        lemma_offered(s, row, n - 1);
        let p = PROTO_ORDER@[n - 1];
        let a = report::offered(s, n - 1);
        let b = report::candidates(s, p);
        if s.enabled.contains(p) {
            let all = a + b;
            if all.contains(row) {
                let i = all.index_of(row);
                if i < a.len() {
                    assert(a[i] == row);
                } else {
                    assert(b[i - a.len()] == row);
                }
            }
            if a.contains(row) {
                let i = a.index_of(row);
                assert(all[i] == row);
            }
            if b.contains(row) {
                let i = b.index_of(row);
                assert(all[a.len() + i] == row);
            }
        }
    } else {
        assert(!report::offered(s, 0).contains(row));
    }
}

/// The values on offer in a column are those of the rows on offer.
pub proof fn law_values_on_offer_are_those_of_rows(
    rs: Seq<report::RowView>,
    row: report::RowView,
    c: usize,
)
    ensures
        report::column_values(Seq::empty(), c) == Set::<Seq<char>>::empty(),
        report::column_values(rs.push(row), c) == report::column_values(rs, c).insert(
            row.cells[c as int],
        ),
{
    let more = rs.push(row);
    let a = report::column_values(more, c);
    let b = report::column_values(rs, c).insert(row.cells[c as int]);
    assert forall|t: Seq<char>| a.contains(t) <==> b.contains(t) by {
        assert(more[rs.len() as int] == row);
        if a.contains(t) {
            let i = choose|i: int|
                0 <= i < more.len() && (#[trigger] more[i]).cells[c as int] == t;
            if i < rs.len() {
                assert(rs[i] == more[i]);
            }
        }
        if report::column_values(rs, c).contains(t) {
            let i = choose|i: int| 0 <= i < rs.len() && (#[trigger] rs[i]).cells[c as int] == t;
            assert(more[i] == rs[i]);
        }
    }
    assert(a =~= b);
    assert(report::column_values(Seq::empty(), c) =~= Set::empty());
}

} // verus!
