//! Which frames share a row, what a row shows, and where it stands.
use crate::counts;
use crate::order;
use crate::order::Rank;
use crate::parse;
use crate::parse::{Frame, Protocol, Redundancy, PROTO_ORDER};
use crate::report;
use crate::report::{Measure, Row, RowKind, COLUMNS, FILTERABLE_COLUMNS};
use crate::rows;
use crate::stats;
use crate::text;
use crate::text_laws;
use vstd::prelude::*;

verus! {

// ---- Keys -------------------------------------------------------------------------------------

/// Whether a row is that of a frame: it has the frame's VLAN tags, redundancy and
/// application header.
pub open spec fn is_row_of(k: counts::StatKeyView, f: parse::FrameView) -> bool {
    &&& k.vlans == f.vlans
    &&& k.redundancy == f.redundancy
    &&& k.app.appid == f.app.appid
    &&& k.app.svid == f.app.svid
    &&& k.app.noasdu == f.app.noasdu
    &&& k.app.confrev == f.app.confrev
    &&& k.app.sim == f.app.sim
}

/// Two frames share a row exactly if their VLAN tags, their redundancy and their
/// application headers are all equal, and the row shows these.
pub proof fn law_frames_share_a_row_if_alike(a: parse::FrameView, b: parse::FrameView)
    ensures
        is_row_of(counts::key_of(a), a),
        counts::key_of(a) == counts::key_of(b) <==> a.vlans == b.vlans && a.redundancy
            == b.redundancy && a.app == b.app,
        is_row_of(counts::key_of(a), b) <==> a.vlans == b.vlans && a.redundancy == b.redundancy
            && a.app == b.app,
{
}

/// Recording a frame counts it once, with its size, in the row that has its VLAN
/// tags, redundancy and application header, and in no other row; both for the
/// window and for the session.
pub proof fn law_a_frame_is_counted_in_its_row(
    s: stats::StatsView,
    f: parse::FrameView,
    size: u64,
    p: Protocol,
    k: counts::StatKeyView,
)
    requires
        counts::valid_stats(s.session),
        counts::valid_stats(s.cur),
        counts::packets_over(s.session) < u64::MAX,
        counts::bytes_over(s.session) + size <= u64::MAX,
        counts::packets_over(s.cur) < u64::MAX,
        counts::bytes_over(s.cur) + size <= u64::MAX,
    ensures
        ({
            let t = stats::recorded(s, f, size);
            let mine = p == f.proto && is_row_of(k, f);
            &&& counts::tally_of(t.session, p, k).packets == counts::tally_of(
                s.session,
                p,
                k,
            ).packets + (if mine {
                1int
            } else {
                0
            })
            &&& counts::tally_of(t.session, p, k).bytes == counts::tally_of(s.session, p, k).bytes
                + (if mine {
                size as int
            } else {
                0
            })
            &&& counts::tally_of(t.cur, p, k).packets == counts::tally_of(s.cur, p, k).packets + (
            if mine {
                1int
            } else {
                0
            })
            &&& counts::tally_of(t.cur, p, k).bytes == counts::tally_of(s.cur, p, k).bytes + (
            if mine {
                size as int
            } else {
                0
            })
        }),
{
    let key = counts::key_of(f);
    counts::lemma_tally_of_within(s.session, f.proto, key);
    counts::lemma_tally_of_within(s.cur, f.proto, key);
    counts::lemma_counted(s.session, f.proto, key, counts::packet(size));
    counts::lemma_counted(s.cur, f.proto, key, counts::packet(size));
    assert(is_row_of(k, f) ==> k == key);
}

// ---- Cells ------------------------------------------------------------------------------------

/// Whether a cell shows a number, or a dash for none.
pub open spec fn shows_number(cell: Seq<char>, v: Option<u64>) -> bool {
    match v {
        Some(n) => cell == text::dec(n as nat),
        None => cell == "-"@,
    }
}

/// Whether a cell lists numbers in decimal, with a comma and a space between
/// them, or is a dash for none.
pub open spec fn lists_numbers(cell: Seq<char>, numbers: Seq<nat>) -> bool {
    if numbers.len() == 0 {
        cell == "-"@
    } else {
        cell == text::joined(Seq::new(numbers.len(), |i: int| text::dec(numbers[i])), ", "@)
    }
}

/// Whether a cell shows a redundancy: scheme and lane, or a dash for none.
pub open spec fn shows_redundancy(cell: Seq<char>, r: Redundancy) -> bool {
    match r {
        Redundancy::Absent => cell == "-"@,
        Redundancy::Hsr(lane) => if lane == 10 {
            cell == "HSR-A"@
        } else if lane == 11 {
            cell == "HSR-B"@
        } else {
            cell == "HSR-0x"@ + text::numeral(lane as nat, 16)
        },
        Redundancy::Prp(lane) => if lane == 10 {
            cell == "PRP-A"@
        } else if lane == 11 {
            cell == "PRP-B"@
        } else {
            cell == "PRP-0x"@ + text::numeral(lane as nat, 16)
        },
    }
}

/// Whether the label cells of a row are those of a protocol and key, each under
/// its heading.
pub open spec fn labels(cells: Seq<Seq<char>>, p: Protocol, k: counts::StatKeyView) -> bool {
    forall|c: int|
        0 <= c < 11 ==> {
            let heading = (#[trigger] COLUMNS@[c])@;
            &&& heading == "Protocol"@ ==> cells[c] == parse::protocol_name(p)
            &&& heading == "VLAN"@ ==> lists_numbers(
                cells[c],
                Seq::new(k.vlans.len(), |i: int| k.vlans[i].0 as nat),
            )
            &&& heading == "CoS"@ ==> lists_numbers(
                cells[c],
                Seq::new(k.vlans.len(), |i: int| k.vlans[i].1 as nat),
            )
            &&& heading == "Redundancy"@ ==> shows_redundancy(cells[c], k.redundancy)
            &&& heading == "AppID"@ ==> cells[c] == (match k.app.appid {
                Some(v) => text::hex4(v),
                None => "-"@,
            })
            &&& heading == "SVID/GOID"@ ==> cells[c] == (match k.app.svid {
                Some(id) => if id.len() > 0 {
                    id
                } else {
                    "-"@
                },
                None => "-"@,
            })
            &&& heading == "noASDU/stNum"@ ==> shows_number(cells[c], k.app.noasdu)
            &&& heading == "confRev"@ ==> shows_number(cells[c], k.app.confrev)
            &&& heading == "Sim"@ ==> cells[c] == (match k.app.sim {
                Some(true) => "yes"@,
                Some(false) => "no"@,
                None => "-"@,
            })
        }
}

/// The headings are, in order: Protocol, VLAN, CoS, Redundancy, AppID,
/// SVID/GOID, noASDU/stNum, confRev, Sim, bits/s and %. The first, second,
/// fourth, fifth and sixth column can be filtered.
pub proof fn law_headings()
    ensures
        COLUMNS@.len() == 11,
        COLUMNS@[0]@ == "Protocol"@ && COLUMNS@[1]@ == "VLAN"@ && COLUMNS@[2]@ == "CoS"@,
        COLUMNS@[3]@ == "Redundancy"@ && COLUMNS@[4]@ == "AppID"@ && COLUMNS@[5]@ == "SVID/GOID"@,
        COLUMNS@[6]@ == "noASDU/stNum"@ && COLUMNS@[7]@ == "confRev"@ && COLUMNS@[8]@ == "Sim"@,
        COLUMNS@[9]@ == "bits/s"@ && COLUMNS@[10]@ == "%"@,
        forall|c: usize| #[trigger]
            report::filterable(c) <==> c == 0 || c == 1 || c == 3 || c == 4 || c == 5,
{
    let f = FILTERABLE_COLUMNS@;
    assert(f[0] == 0 && f[1] == 1 && f[2] == 3 && f[3] == 4 && f[4] == 5 && f.len() == 5);
}

proof fn lemma_headings_differ()
    ensures
        forall|i: int, j: int|
            0 <= i < 11 && 0 <= j < 11 && (#[trigger] COLUMNS@[i])@ == (#[trigger] COLUMNS@[j])@
                ==> i == j,
{
    reveal_strlit("Protocol");
    reveal_strlit("VLAN");
    reveal_strlit("CoS");
    reveal_strlit("Redundancy");
    reveal_strlit("AppID");
    reveal_strlit("SVID/GOID");
    reveal_strlit("noASDU/stNum");
    reveal_strlit("confRev");
    reveal_strlit("Sim");
    reveal_strlit("bits/s");
    reveal_strlit("%");
    law_headings();
    assert(COLUMNS@[0]@.len() == 8 && COLUMNS@[1]@.len() == 4 && COLUMNS@[2]@.len() == 3
        && COLUMNS@[3]@.len() == 10 && COLUMNS@[4]@.len() == 5 && COLUMNS@[5]@.len() == 9
        && COLUMNS@[6]@.len() == 12 && COLUMNS@[7]@.len() == 7 && COLUMNS@[8]@.len() == 3
        && COLUMNS@[9]@.len() == 6 && COLUMNS@[10]@.len() == 1);
    assert(COLUMNS@[2]@[0] != COLUMNS@[8]@[0]);
}

proof fn lemma_labels(
    p: Protocol,
    k: counts::StatKeyView,
    rate: Seq<char>,
    load: Seq<char>,
)
    ensures
        labels(report::key_cells(p, k, rate, load), p, k),
{
    let cells = report::key_cells(p, k, rate, load);
    law_headings();
    lemma_headings_differ();
    let ids = Seq::new(k.vlans.len(), |i: int| k.vlans[i].0 as nat);
    let pcps = Seq::new(k.vlans.len(), |i: int| k.vlans[i].1 as nat);
    assert(Seq::new(ids.len(), |i: int| text::dec(ids[i])) =~= Seq::new(
        k.vlans.len(),
        |i: int| text::dec(k.vlans[i].0 as nat),
    ));
    assert(Seq::new(pcps.len(), |i: int| text::dec(pcps[i])) =~= Seq::new(
        k.vlans.len(),
        |i: int| text::dec(k.vlans[i].1 as nat),
    ));
    reveal_strlit("A");
    reveal_strlit("B");
    reveal_strlit("0x");
    reveal_strlit("HSR-");
    reveal_strlit("HSR-A");
    reveal_strlit("HSR-B");
    reveal_strlit("HSR-0x");
    reveal_strlit("PRP-");
    reveal_strlit("PRP-A");
    reveal_strlit("PRP-B");
    reveal_strlit("PRP-0x");
    assert("HSR-"@ + "A"@ =~= "HSR-A"@ && "HSR-"@ + "B"@ =~= "HSR-B"@);
    assert("PRP-"@ + "A"@ =~= "PRP-A"@ && "PRP-"@ + "B"@ =~= "PRP-B"@);
    match k.redundancy {
        Redundancy::Absent => {},
        Redundancy::Hsr(lane) => {
            let n = text::numeral(lane as nat, 16);
            assert("HSR-"@ + ("0x"@ + n) =~= "HSR-0x"@ + n);
        },
        Redundancy::Prp(lane) => {
            let n = text::numeral(lane as nat, 16);
            assert("PRP-"@ + ("0x"@ + n) =~= "PRP-0x"@ + n);
        },
    }
    assert(labels(cells, p, k)) by {
        assert forall|c: int| 0 <= c < 11 implies {
            let heading = (#[trigger] COLUMNS@[c])@;
            &&& heading == "Protocol"@ ==> cells[c] == parse::protocol_name(p)
            &&& heading == "VLAN"@ ==> lists_numbers(cells[c], ids)
            &&& heading == "CoS"@ ==> lists_numbers(cells[c], pcps)
            &&& heading == "Redundancy"@ ==> shows_redundancy(cells[c], k.redundancy)
            &&& heading == "AppID"@ ==> cells[c] == (match k.app.appid {
                Some(v) => text::hex4(v),
                None => "-"@,
            })
            &&& heading == "SVID/GOID"@ ==> cells[c] == (match k.app.svid {
                Some(id) => if id.len() > 0 {
                    id
                } else {
                    "-"@
                },
                None => "-"@,
            })
            &&& heading == "noASDU/stNum"@ ==> shows_number(cells[c], k.app.noasdu)
            &&& heading == "confRev"@ ==> shows_number(cells[c], k.app.confrev)
            &&& heading == "Sim"@ ==> cells[c] == (match k.app.sim {
                Some(true) => "yes"@,
                Some(false) => "no"@,
                None => "-"@,
            })
        } by {
            let heading = COLUMNS@[c]@;
            if heading == "Protocol"@ {
                assert(COLUMNS@[c]@ == COLUMNS@[0]@);
            }
            if heading == "VLAN"@ {
                assert(COLUMNS@[c]@ == COLUMNS@[1]@);
            }
            if heading == "CoS"@ {
                assert(COLUMNS@[c]@ == COLUMNS@[2]@);
            }
            if heading == "Redundancy"@ {
                assert(COLUMNS@[c]@ == COLUMNS@[3]@);
            }
            if heading == "AppID"@ {
                assert(COLUMNS@[c]@ == COLUMNS@[4]@);
            }
            if heading == "SVID/GOID"@ {
                assert(COLUMNS@[c]@ == COLUMNS@[5]@);
            }
            if heading == "noASDU/stNum"@ {
                assert(COLUMNS@[c]@ == COLUMNS@[6]@);
            }
            if heading == "confRev"@ {
                assert(COLUMNS@[c]@ == COLUMNS@[7]@);
            }
            if heading == "Sim"@ {
                assert(COLUMNS@[c]@ == COLUMNS@[8]@);
            }
        }
    }
}

/// Of two streams that differ in one label only, that label's cell alone
/// differs: shown here of confRev and of noASDU/stNum.
pub proof fn law_streams_differ_where_their_labels_do(
    p: Protocol,
    a: counts::StatKeyView,
    b: counts::StatKeyView,
    rate: Seq<char>,
    load: Seq<char>,
)
    requires
        a.vlans == b.vlans,
        a.redundancy == b.redundancy,
        a.app.appid == b.app.appid,
        a.app.svid == b.app.svid,
        a.app.sim == b.app.sim,
    ensures
        ({
            let x = report::key_cells(p, a, rate, load);
            let y = report::key_cells(p, b, rate, load);
            &&& forall|c: int| 0 <= c < 11 && c != 6 && c != 7 ==> x[c] == y[c]
            &&& x[6] == y[6] <==> a.app.noasdu == b.app.noasdu
            &&& x[7] == y[7] <==> a.app.confrev == b.app.confrev
        }),
{
    lemma_number_cells_differ(a.app.noasdu, b.app.noasdu);
    lemma_number_cells_differ(a.app.confrev, b.app.confrev);
}

proof fn lemma_number_cells_differ(a: Option<u64>, b: Option<u64>)
    ensures
        parse::number_text(a) == parse::number_text(b) <==> a == b,
{
    reveal_strlit("-");
    match (a, b) {
        (Some(m), Some(n)) => {
            text_laws::law_decimals_read_back(m as nat, m as nat + n as nat);
            text_laws::law_decimals_read_back(n as nat, m as nat + n as nat);
        },
        (Some(m), None) => {
            lemma_no_dash(m as nat);
        },
        (None, Some(n)) => {
            lemma_no_dash(n as nat);
        },
        (None, None) => {},
    }
}

proof fn lemma_no_dash(n: nat)
    ensures
        text::dec(n) != "-"@,
{
    reveal_strlit("-");
    text_laws::law_decimals_read_back(n, n);
    if text::dec(n) == "-"@ {
        let s = text::dec(n);
        assert(s.len() == 1 && s[0] == '-');
        assert('-' as int == 45 && '+' as int == 43);
        assert(s.drop_last() =~= Seq::empty());
        assert(text::digit_value('-', 10) is None);
    }
}

/// A row of a stream that carried traffic shows its labels, its bytes, and the
/// rate and load that these amount to; whether it is simulated and whether
/// redundant.
pub proof fn law_a_detail_row_shows_its_stream(
    p: Protocol,
    k: counts::StatKeyView,
    bytes: u64,
    m: report::MeasureView,
)
    ensures
        ({
            let r = report::detail_row(p, k, bytes, m);
            &&& r.kind == RowKind::Detail
            &&& r.cells.len() == 11
            &&& labels(r.cells, p, k)
            &&& r.cells[9] == m.rate
            &&& r.cells[10] == m.load
            &&& r.level == m.level
            &&& r.bytes == Some(bytes)
            &&& r.sim <==> k.app.sim == Some(true)
            &&& r.redundant <==> !(k.redundancy is Absent)
        }),
{
    lemma_labels(p, k, m.rate, m.load);
}

/// A row of a silent stream shows its labels, no rate, and for how many whole
/// seconds it has been silent.
pub proof fn law_an_idle_row_shows_its_stream(p: Protocol, k: counts::StatKeyView, since_ns: u64)
    ensures
        ({
            let r = report::idle_row(p, k, since_ns);
            &&& r.kind == RowKind::Idle
            &&& r.cells.len() == 11
            &&& labels(r.cells, p, k)
            &&& r.cells[9] == "0.000 bit/s"@
            &&& r.cells[10] == "idle "@ + text::dec((since_ns / 1_000_000_000) as nat) + "s"@
            &&& r.bytes is None
        }),
{
    lemma_labels(
        p,
        k,
        "0.000 bit/s"@,
        "idle "@ + text::dec((since_ns / 1_000_000_000) as nat) + "s"@,
    );
}

/// A row that sums others shows its name, dashes, and the rate and load of its
/// bytes.
pub proof fn law_a_sum_row_shows_its_bytes(
    kind: RowKind,
    name: Seq<char>,
    bytes: u64,
    m: report::MeasureView,
)
    ensures
        ({
            let r = report::sum_row(kind, name, bytes, m);
            &&& r.kind == kind
            &&& r.cells.len() == 11
            &&& r.cells[0] == name
            &&& forall|c: int| 1 <= c < 9 ==> (#[trigger] r.cells[c]) == "-"@
            &&& r.cells[9] == m.rate
            &&& r.cells[10] == m.load
            &&& r.bytes == Some(bytes)
            &&& r.level == m.level
        }),
{
}

/// What a broken-out protocol offers is one row for each of its streams, in
/// order: the streams of this window with their bytes, or without any the last
/// known ones.
pub proof fn law_a_protocol_offers_its_streams(s: report::Scene, p: Protocol)
    ensures
        ({
            let live = counts::rows_of(s.stats, p);
            let c = report::candidates(s, p);
            live.len() > 0 ==> c.len() == live.len() && forall|i: int|
                0 <= i < c.len() ==> {
                    let (k, n) = rows::in_order(live)[i];
                    (#[trigger] c[i]) == report::detail_row(p, k, n.bytes, (s.meter)(n.bytes))
                }
        }),
        counts::rows_of(s.stats, p).len() == 0 && (forall|i: int|
            0 <= i < s.idle.len() ==> (#[trigger] s.idle[i]).0 != p) ==> report::candidates(
            s,
            p,
        ).len() == 0,
        forall|n: int|
            counts::rows_of(s.stats, p).len() == 0 && 0 <= n < s.idle.len() && (
            #[trigger] s.idle[n]).0 == p && (forall|i: int|
                0 <= i < n ==> (#[trigger] s.idle[i]).0 != p) ==> {
                let c = report::candidates(s, p);
                &&& c.len() == s.idle[n].1.len()
                &&& forall|i: int|
                    0 <= i < c.len() ==> (#[trigger] c[i]) == report::idle_row(
                        p,
                        rows::in_order(s.idle[n].1)[i].0,
                        s.idle[n].2,
                    )
            },
{
    let live = counts::rows_of(s.stats, p);
    rows::law_rows_are_sorted(live);
    if live.len() == 0 {
        lemma_idle_from(s.idle, p, 0);
        assert forall|n: int|
            0 <= n < s.idle.len() && (#[trigger] s.idle[n]).0 == p && (forall|i: int|
                0 <= i < n ==> (#[trigger] s.idle[i]).0 != p) implies {
            let c = report::candidates(s, p);
            &&& c.len() == s.idle[n].1.len()
            &&& forall|i: int|
                0 <= i < c.len() ==> (#[trigger] c[i]) == report::idle_row(
                    p,
                    rows::in_order(s.idle[n].1)[i].0,
                    s.idle[n].2,
                )
        } by {
            rows::law_rows_are_sorted(s.idle[n].1);
            let m = report::idle_from(s.idle, p, 0)->0;
            if m < n {
                assert(s.idle[m].0 != p);
            }
            assert(m == n);
        }
    }
}

proof fn lemma_idle_from(
    idle: Seq<(Protocol, Seq<(counts::StatKeyView, counts::Counter)>, u64)>,
    p: Protocol,
    i: int,
)
    requires
        0 <= i,
    ensures
        match report::idle_from(idle, p, i) {
            Some(n) => i <= n < idle.len() && idle[n].0 == p && forall|j: int|
                i <= j < n ==> (#[trigger] idle[j]).0 != p,
            None => forall|j: int| i <= j < idle.len() ==> (#[trigger] idle[j]).0 != p,
        },
    decreases idle.len() - i,
{
    if i < idle.len() && idle[i].0 != p {
        lemma_idle_from(idle, p, i + 1);
    }
}

/// A cell of the display filter decides alone: a row shows exactly if in every
/// constrained column its cell is one of the allowed values.
pub proof fn law_rows_show_by_their_cells(
    f: Map<usize, Seq<Seq<char>>>,
    cells: Seq<Seq<char>>,
    col: usize,
    values: Seq<Seq<char>>,
)
    ensures
        report::allows(Map::empty(), cells),
        report::allows(f.insert(col, values), cells) <==> values.contains(cells[col as int])
            && report::allows(f.remove(col), cells),
{
    let g = f.insert(col, values);
    let h = f.remove(col);
    if report::allows(g, cells) {
        assert(g.contains_key(col));
        assert forall|c: usize| #[trigger] h.contains_key(c) implies h[c].contains(
            cells[c as int],
        ) by {
            assert(g.contains_key(c));
        }
    }
    if values.contains(cells[col as int]) && report::allows(h, cells) {
        assert forall|c: usize| #[trigger] g.contains_key(c) implies g[c].contains(
            cells[c as int],
        ) by {
            if c != col {
                assert(h.contains_key(c));
            }
        }
    }
}

// ---- Order ------------------------------------------------------------------------------------

/// The VLAN ids of a row, outermost first.
pub open spec fn ids_of(k: counts::StatKeyView) -> Seq<int> {
    Seq::new(k.vlans.len(), |i: int| k.vlans[i].0 as int)
}

/// The characters of an identifier; none where there is none.
pub open spec fn letters_of(id: Option<Seq<char>>) -> Seq<int> {
    match id {
        Some(s) => Seq::new(s.len(), |i: int| s[i] as int),
        None => Seq::empty(),
    }
}

/// The characters of a redundancy as it is shown.
pub open spec fn scheme_of(r: Redundancy) -> Seq<int> {
    let s = parse::redundancy_text(r);
    Seq::new(s.len(), |i: int| s[i] as int)
}

/// Whether one optional number comes before another, a missing one last.
pub open spec fn comes_first(a: Option<u64>, b: Option<u64>) -> bool {
    match (a, b) {
        (Some(m), Some(n)) => m < n,
        (Some(m), None) => m < u64::MAX,
        (None, _) => false,
    }
}

/// Whether one AppID comes before another, a missing one last.
pub open spec fn appid_comes_first(a: Option<u16>, b: Option<u16>) -> bool {
    match (a, b) {
        (Some(m), Some(n)) => m < n,
        (Some(_), None) => true,
        (None, _) => false,
    }
}

/// Rows stand in the order of their VLAN ids, number by number; where these are
/// equal of their redundancy as it is shown, of their AppID, of their identifier
/// letter by letter, of their noASDU/stNum, and last of their confRev.
pub proof fn law_rows_rank_by_their_labels(a: counts::StatKeyView, b: counts::StatKeyView)
    ensures
        ({
            let r = rows::row_rank(a, b);
            let same_ids = ids_of(a) == ids_of(b);
            let same_scheme = same_ids && scheme_of(a.redundancy) == scheme_of(b.redundancy);
            let same_appid = same_scheme && a.app.appid == b.app.appid;
            let same_name = same_appid && letters_of(a.app.svid) == letters_of(b.app.svid);
            let same_number = same_name && a.app.noasdu == b.app.noasdu;
            &&& text_laws::lexically_before(ids_of(a), ids_of(b)) ==> r == Rank::Before
            &&& same_ids && text_laws::lexically_before(
                scheme_of(a.redundancy),
                scheme_of(b.redundancy),
            ) ==> r == Rank::Before
            &&& same_scheme && appid_comes_first(a.app.appid, b.app.appid) ==> r == Rank::Before
            &&& same_appid && text_laws::lexically_before(
                letters_of(a.app.svid),
                letters_of(b.app.svid),
            ) ==> r == Rank::Before
            &&& same_name && comes_first(a.app.noasdu, b.app.noasdu) ==> r == Rank::Before
            &&& same_number && comes_first(a.app.confrev, b.app.confrev) ==> r == Rank::Before
        }),
{
    let va = order::numbers(parse::tag_ids(a.vlans));
    let vb = order::numbers(parse::tag_ids(b.vlans));
    assert(va =~= ids_of(a) && vb =~= ids_of(b));
    let ra = order::codes(parse::redundancy_text(a.redundancy));
    let rb = order::codes(parse::redundancy_text(b.redundancy));
    assert(ra =~= scheme_of(a.redundancy) && rb =~= scheme_of(b.redundancy));
    let sa = order::codes(rows::text_or_empty(a.app.svid));
    let sb = order::codes(rows::text_or_empty(b.app.svid));
    assert(sa =~= letters_of(a.app.svid) && sb =~= letters_of(b.app.svid));
    text_laws::law_ranks_are_lexical(va, vb);
    text_laws::law_ranks_are_lexical(ra, rb);
    text_laws::law_ranks_are_lexical(sa, sb);
    let x = seq![rows::appid_or_last(a.app.appid)];
    let y = seq![rows::appid_or_last(b.app.appid)];
    order::lemma_seq_rank_same(x, y);
    let p = seq![rows::or_last(a.app.noasdu)];
    let q = seq![rows::or_last(b.app.noasdu)];
    order::lemma_seq_rank_same(p, q);
    assert(x[0] == rows::appid_or_last(a.app.appid) && y[0] == rows::appid_or_last(b.app.appid));
    assert(p[0] == rows::or_last(a.app.noasdu) && q[0] == rows::or_last(b.app.noasdu));
}

/// Protocols stand in the order GOOSE, Sampled Values, R-GOOSE, PTP, MMS, DNP3,
/// IEC 104, Modbus TCP, and no other is broken out.
pub proof fn law_protocols_stand_in_order()
    ensures
        PROTO_ORDER@ == seq![
            Protocol::Goose,
            Protocol::SampledValues,
            Protocol::RGoose,
            Protocol::Ptp,
            Protocol::Mms,
            Protocol::Dnp3,
            Protocol::Iec104,
            Protocol::ModbusTcp,
        ],
{
    assert(PROTO_ORDER@ =~= seq![
        Protocol::Goose,
        Protocol::SampledValues,
        Protocol::RGoose,
        Protocol::Ptp,
        Protocol::Mms,
        Protocol::Dnp3,
        Protocol::Iec104,
        Protocol::ModbusTcp,
    ]);
}

// ---- What stands for what ---------------------------------------------------------------------

/// A report is made from the rows, the idle protocols, the choice of protocols and
/// the display filter that it is given, and measures bytes as it is told to.
pub proof fn law_a_report_is_made_from_what_it_is_given<M: Fn(u64) -> Measure>(
    snap: stats::Snapshot,
    enabled: Set<Protocol>,
    filter: Map<usize, Seq<Seq<char>>>,
    measure: M,
    bytes: u64,
    m: Measure,
)
    requires
        report::is_meter(measure),
        call_ensures(measure, (bytes,), m),
    ensures
        ({
            let s = report::scene_of(snap, enabled, filter, measure);
            &&& s.stats == snap.stats@
            &&& s.idle.len() == snap.idle@.len()
            &&& forall|i: int|
                0 <= i < snap.idle@.len() ==> (#[trigger] s.idle[i]) == (
                    snap.idle@[i].0,
                    snap.idle@[i].1@,
                    snap.idle@[i].2,
                )
            &&& s.enabled == enabled
            &&& s.filter == filter
            &&& (s.meter)(bytes).rate == m.rate@
            &&& (s.meter)(bytes).load == m.load@
            &&& (s.meter)(bytes).level == m.level
        }),
{
    let x = choose|x: Measure| call_ensures(measure, (bytes,), x);
    assert(call_ensures(measure, (bytes,), x));
    assert(x@ == m@);
}

/// A row, a frame and a key are taken for what they hold.
pub proof fn law_values_are_taken_for_what_they_hold(
    row: Row,
    frame: Frame,
    key: counts::StatKey,
    c: int,
)
    requires
        0 <= c < 11,
    ensures
        row@.kind == row.kind,
        row@.cells.len() == 11,
        row@.cells[c] == row.cells@[c]@,
        row@.bytes == row.bytes,
        row@.level == row.level,
        row@.sim == row.sim,
        row@.redundant == row.redundant,
        frame@.proto == frame.proto,
        frame@.vlans == frame.vlans@,
        frame@.redundancy == frame.redundancy,
        frame@.app == frame.app@,
        key@.vlans == key.vlans@,
        key@.redundancy == key.redundancy,
        key@.app == key.app@,
        frame.app@.appid == frame.app.appid,
        frame.app@.noasdu == frame.app.noasdu,
        frame.app@.confrev == frame.app.confrev,
        frame.app@.sim == frame.app.sim,
        frame.app.svid is None ==> frame.app@.svid is None,
        frame.app.svid is Some ==> frame.app@.svid == Some(frame.app.svid->0@),
{
}

} // verus!
