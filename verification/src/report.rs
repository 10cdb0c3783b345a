//! Turning a snapshot into the rows both front ends draw.
//!
//! The row set, the ordering, the subtotals and the grand total are computed
//! exactly once; a front end only decides how a [`Row`] is painted.
//!
//! How a byte count reads as a rate and a load is the caller's: it depends on
//! the window and the link speed. Everything else about the table is decided
//! here.
use crate::counts;
use crate::counts::{Counter, KeyMap, StatKey};
use crate::parse;
use crate::parse::{Protocol, ProtocolSet, Redundancy, NONE_STR, PROTO_ORDER};
use crate::rows;
use crate::rows::display_order;
use crate::sets::TextSet;
use crate::stats;
use crate::stats::{Snapshot, NS_PER_SEC};
use crate::text;
use crate::text::decimal;
use std::collections::HashMap;
use vstd::prelude::*;

verus! {

/// Table columns, in display order.
pub const COLUMNS: [&'static str; 11] = [
    "Protocol",
    "VLAN",
    "CoS",
    "Redundancy",
    "AppID",
    "SVID/GOID",
    "noASDU/stNum",
    "confRev",
    "Sim",
    "bits/s",
    "%",
];

/// How many columns there are.
pub const N_COLUMNS: usize = 11;

pub const COL_PROTOCOL: usize = 0;

pub const COL_VLAN: usize = 1;

pub const COL_REDUNDANCY: usize = 3;

pub const COL_APPID: usize = 4;

pub const COL_SVID: usize = 5;

/// The rate column.
pub const COL_RATE: usize = 9;

/// The load column.
pub const COL_LOAD: usize = 10;

/// Columns that get an interactive value filter in the GUI.
pub const FILTERABLE_COLUMNS: [usize; 5] = [
    COL_PROTOCOL,
    COL_VLAN,
    COL_REDUNDANCY,
    COL_APPID,
    COL_SVID,
];

/// The rate shown for a protocol that carried nothing.
pub const NO_RATE: &'static str = "0.000 bit/s";

// ---- Rows ---------------------------------------------------------------------------

/// How prominently a rate should read.
#[derive(Clone, Copy, PartialEq, Eq, Structural, Debug)]
pub enum LoadLevel {
    Normal,
    Warn,
    Critical,
}

#[derive(Clone, Copy, PartialEq, Eq, Structural, Debug)]
pub enum RowKind {
    /// One distinct VLAN/redundancy/AppID combination of a protocol.
    Detail,
    /// A protocol seen earlier but silent in this window.
    Idle,
    /// `Sum <protocol>` across that protocol's detail rows.
    Subtotal,
    /// Everything not broken out individually.
    Other,
    /// The grand total.
    Total,
}

/// What a byte count over the window amounts to.
#[derive(Debug)]
pub struct Measure {
    /// The rate, for the bits/s column.
    pub rate: String,
    /// The share of the link, for the % column.
    pub load: String,
    pub level: LoadLevel,
}

/// The content of a [`Measure`].
pub ghost struct MeasureView {
    pub rate: Seq<char>,
    pub load: Seq<char>,
    pub level: LoadLevel,
}

impl View for Measure {
    type V = MeasureView;

    open spec fn view(&self) -> MeasureView {
        MeasureView { rate: self.rate@, load: self.load@, level: self.level }
    }
}

/// One table row.
#[derive(Debug)]
pub struct Row {
    pub kind: RowKind,
    pub cells: [String; 11],
    /// Bytes over the window, or `None` for an idle row where a rate would be
    /// misleading.
    pub bytes: Option<u64>,
    pub level: LoadLevel,
    /// Frame carried the simulation flag: operationally important to notice.
    pub sim: bool,
    pub redundant: bool,
}

/// The content of a [`Row`].
#[verifier::ext_equal]
pub ghost struct RowView {
    pub kind: RowKind,
    pub cells: Seq<Seq<char>>,
    pub bytes: Option<u64>,
    pub level: LoadLevel,
    pub sim: bool,
    pub redundant: bool,
}

/// The texts of the cells.
pub open spec fn cells_view(cells: [String; 11]) -> Seq<Seq<char>> {
    Seq::new(11, |i: int| cells@[i]@)
}

impl View for Row {
    type V = RowView;

    open spec fn view(&self) -> RowView {
        RowView {
            kind: self.kind,
            cells: cells_view(self.cells),
            bytes: self.bytes,
            level: self.level,
            sim: self.sim,
            redundant: self.redundant,
        }
    }
}

impl Row {
    pub fn load_level(&self) -> (r: LoadLevel)
        ensures
            r == self.level,
    {
        self.level
    }
}

/// The contents of a list of rows.
pub open spec fn rows_view(v: Seq<Row>) -> Seq<RowView> {
    Seq::new(v.len(), |i: int| v[i]@)
}

// ---- Display filter -----------------------------------------------------------------

/// Post-hoc filter over already-captured data, driven by the GUI's column
/// dropdowns. Distinct from [`crate::filter::FrameFilter`], which drops frames
/// before they are ever counted.
#[derive(Debug)]
pub struct DisplayFilter {
    /// Column index -> the set of values allowed. Absent means unconstrained.
    cols: HashMap<usize, TextSet>,
}

/// The listings of sets by column.
pub open spec fn lists(m: Map<usize, TextSet>) -> Map<usize, Seq<Seq<char>>> {
    Map::new(|c: usize| m.contains_key(c), |c: usize| m[c]@)
}

impl View for DisplayFilter {
    type V = Map<usize, Seq<Seq<char>>>;

    closed spec fn view(&self) -> Map<usize, Seq<Seq<char>>> {
        lists(self.cols@)
    }
}

/// Whether every constrained column of a row has an allowed value.
pub open spec fn allows(f: Map<usize, Seq<Seq<char>>>, cells: Seq<Seq<char>>) -> bool {
    forall|c: usize| #[trigger] f.contains_key(c) ==> f[c].contains(cells[c as int])
}

/// Whether only existing columns are constrained.
pub open spec fn within_columns(f: Map<usize, Seq<Seq<char>>>) -> bool {
    forall|c: usize| #[trigger] f.contains_key(c) ==> c < N_COLUMNS
}

impl Default for DisplayFilter {
    fn default() -> (r: DisplayFilter)
        ensures
            r@ == Map::<usize, Seq<Seq<char>>>::empty(),
    {
        let r = DisplayFilter { cols: HashMap::new() };
        assert(r@ =~= Map::<usize, Seq<Seq<char>>>::empty());
        r
    }
}

impl DisplayFilter {
    pub fn is_empty(&self) -> (r: bool)
        ensures
            r == (self@ == Map::<usize, Seq<Seq<char>>>::empty()),
    {
        let r: bool = self.cols.is_empty();
        proof {
            if r {
                assert(self@ =~= Map::<usize, Seq<Seq<char>>>::empty());
            } else {
                let c = choose|c: usize| self.cols@.contains_key(c);
                assert(self.cols@.dom() != Set::<usize>::empty());
                assert(self.cols@.contains_key(c));
                assert(self@.contains_key(c));
            }
        }
        r
    }

    pub fn is_active(&self, col: usize) -> (r: bool)
        ensures
            r == self@.contains_key(col),
    {
        self.cols.contains_key(&col)
    }

    pub fn allowed(&self, col: usize) -> (r: Option<&TextSet>)
        ensures
            match r {
                Some(s) => self@.contains_key(col) && s@ == self@[col],
                None => !self@.contains_key(col),
            },
    {
        self.cols.get(&col)
    }

    /// Constrain a column, or clear it when `values` is `None`.
    pub fn set(&mut self, col: usize, values: Option<TextSet>)
        ensures
            final(self)@ == (match values {
                Some(v) => old(self)@.insert(col, v@),
                None => old(self)@.remove(col),
            }),
    {
        match values {
            Some(v) => {
                let ghost list = v@;
                self.cols.insert(col, v);
                assert(self@ =~= old(self)@.insert(col, list));
            },
            None => {
                self.cols.remove(&col);
                assert(self@ =~= old(self)@.remove(col));
            },
        }
    }

    pub fn clear(&mut self)
        ensures
            final(self)@ == Map::<usize, Seq<Seq<char>>>::empty(),
    {
        self.cols.clear();
        assert(self@ =~= Map::<usize, Seq<Seq<char>>>::empty());
    }

    /// Whether the filter lets a row be displayed.
    pub fn allows(&self, cells: &[String; 11]) -> (r: bool)
        requires
            within_columns(self@),
        ensures
            r == allows(self@, cells_view(*cells)),
    {
        let mut c: usize = 0;
        while c < N_COLUMNS
            invariant
                c <= N_COLUMNS,
                within_columns(self@),
                forall|d: usize|
                    d < c && #[trigger] self@.contains_key(d) ==> self@[d].contains(
                        cells_view(*cells)[d as int],
                    ),
            decreases N_COLUMNS - c,
        {
            if let Some(set) = self.allowed(c) {
                if !set.contains(cells[c].as_str()) {
                    assert(!self@[c].contains(cells_view(*cells)[c as int]));
                    return false;
                }
            }
            c += 1;
        }
        true
    }
}

// ---- The report: model ----------------------------------------------------------------

/// What a report is made from.
pub ghost struct Scene {
    pub stats: Seq<(Protocol, Seq<(counts::StatKeyView, Counter)>)>,
    pub idle: Seq<(Protocol, Seq<(counts::StatKeyView, Counter)>, u64)>,
    /// The protocols broken out of `Other`.
    pub enabled: Set<Protocol>,
    pub filter: Map<usize, Seq<Seq<char>>>,
    /// What a byte count amounts to.
    pub meter: spec_fn(u64) -> MeasureView,
}

/// The cells of a row for one key.
pub open spec fn key_cells(
    p: Protocol,
    k: counts::StatKeyView,
    rate: Seq<char>,
    load: Seq<char>,
) -> Seq<Seq<char>> {
    seq![
        parse::protocol_name(p),
        parse::vlan_text(k.vlans),
        parse::cos_text(k.vlans),
        parse::redundancy_text(k.redundancy),
        parse::appid_text(k.app.appid),
        parse::svid_text(k.app.svid),
        parse::number_text(k.app.noasdu),
        parse::number_text(k.app.confrev),
        parse::sim_text(k.app.sim),
        rate,
        load,
    ]
}

/// The cells of a row that sums others.
pub open spec fn sum_cells(name: Seq<char>, rate: Seq<char>, load: Seq<char>) -> Seq<Seq<char>> {
    seq![
        name,
        NONE_STR@,
        NONE_STR@,
        NONE_STR@,
        NONE_STR@,
        NONE_STR@,
        NONE_STR@,
        NONE_STR@,
        NONE_STR@,
        rate,
        load,
    ]
}

/// The row of a key that carried traffic.
pub open spec fn detail_row(
    p: Protocol,
    k: counts::StatKeyView,
    bytes: u64,
    m: MeasureView,
) -> RowView {
    RowView {
        kind: RowKind::Detail,
        cells: key_cells(p, k, m.rate, m.load),
        bytes: Some(bytes),
        level: m.level,
        sim: k.app.sim == Some(true),
        redundant: k.redundancy != Redundancy::Absent,
    }
}

/// The row of a key last seen some time ago.
pub open spec fn idle_row(p: Protocol, k: counts::StatKeyView, since_ns: u64) -> RowView {
    RowView {
        kind: RowKind::Idle,
        cells: key_cells(
            p,
            k,
            NO_RATE@,
            "idle "@ + text::dec((since_ns / NS_PER_SEC) as nat) + "s"@,
        ),
        bytes: None,
        level: LoadLevel::Normal,
        sim: k.app.sim == Some(true),
        redundant: k.redundancy != Redundancy::Absent,
    }
}

/// A row that sums others.
pub open spec fn sum_row(kind: RowKind, name: Seq<char>, bytes: u64, m: MeasureView) -> RowView {
    RowView {
        kind,
        cells: sum_cells(name, m.rate, m.load),
        bytes: Some(bytes),
        level: m.level,
        sim: false,
        redundant: false,
    }
}

/// The first idle entry of a protocol, from position `i` on.
pub open spec fn idle_from(
    idle: Seq<(Protocol, Seq<(counts::StatKeyView, Counter)>, u64)>,
    p: Protocol,
    i: int,
) -> Option<int>
    decreases idle.len() - i,
{
    if i < 0 || i >= idle.len() {
        None
    } else if idle[i].0 == p {
        Some(i)
    } else {
        idle_from(idle, p, i + 1)
    }
}

/// All rows a broken-out protocol has to offer: one for each key it carried
/// traffic under, or, silent this window, its last known rows.
pub open spec fn candidates(s: Scene, p: Protocol) -> Seq<RowView> {
    let live = rows::in_order(counts::rows_of(s.stats, p));
    if live.len() > 0 {
        Seq::new(
            live.len(),
            |i: int| detail_row(p, live[i].0, live[i].1.bytes, (s.meter)(live[i].1.bytes)),
        )
    } else {
        match idle_from(s.idle, p, 0) {
            Some(n) => {
                let last = rows::in_order(s.idle[n].1);
                Seq::new(last.len(), |i: int| idle_row(p, last[i].0, s.idle[n].2))
            },
            None => Seq::empty(),
        }
    }
}

/// The rows that the display filter lets through.
pub open spec fn kept(f: Map<usize, Seq<Seq<char>>>, rs: Seq<RowView>) -> Seq<RowView>
    decreases rs.len(),
{
    if rs.len() == 0 {
        Seq::empty()
    } else if allows(f, rs.last().cells) {
        kept(f, rs.drop_last()).push(rs.last())
    } else {
        kept(f, rs.drop_last())
    }
}

/// The bytes of all rows.
pub open spec fn bytes_of(rs: Seq<RowView>) -> nat
    decreases rs.len(),
{
    if rs.len() == 0 {
        0
    } else {
        bytes_of(rs.drop_last()) + (match rs.last().bytes {
            Some(b) => b as nat,
            None => 0nat,
        })
    }
}

/// The rows of a broken-out protocol that show.
pub open spec fn shown(s: Scene, p: Protocol) -> Seq<RowView> {
    kept(s.filter, candidates(s, p))
}

/// A broken-out protocol's part of the table. A subtotal only says something
/// when there is more than one row to sum.
pub open spec fn section(s: Scene, p: Protocol) -> Seq<RowView> {
    let rs = shown(s, p);
    let sum = bytes_of(rs) as u64;
    if counts::rows_of(s.stats, p).len() > 0 && rs.len() > 1 {
        rs.push(
            sum_row(
                RowKind::Subtotal,
                "Sum "@ + parse::protocol_name(p),
                sum,
                (s.meter)(sum),
            ),
        )
    } else {
        rs
    }
}

/// The parts of the first `n` protocols in display order.
pub open spec fn sections(s: Scene, n: int) -> Seq<RowView>
    decreases n,
{
    if n <= 0 {
        Seq::empty()
    } else {
        let p = PROTO_ORDER@[n - 1];
        if s.enabled.contains(p) {
            sections(s, n - 1) + section(s, p)
        } else {
            sections(s, n - 1)
        }
    }
}

/// The rows that the first `n` protocols have to offer.
pub open spec fn offered(s: Scene, n: int) -> Seq<RowView>
    decreases n,
{
    if n <= 0 {
        Seq::empty()
    } else {
        let p = PROTO_ORDER@[n - 1];
        if s.enabled.contains(p) {
            offered(s, n - 1) + candidates(s, p)
        } else {
            offered(s, n - 1)
        }
    }
}

/// The bytes of the rows that the first `n` protocols show.
pub open spec fn shown_bytes(s: Scene, n: int) -> nat
    decreases n,
{
    if n <= 0 {
        0
    } else {
        let p = PROTO_ORDER@[n - 1];
        shown_bytes(s, n - 1) + (if s.enabled.contains(p) {
            bytes_of(shown(s, p))
        } else {
            0nat
        })
    }
}

/// The bytes of those of the first `n` protocols that are not broken out.
pub open spec fn folded_bytes(s: Scene, n: int) -> nat
    decreases n,
{
    if n <= 0 {
        0
    } else {
        let p = PROTO_ORDER@[n - 1];
        folded_bytes(s, n - 1) + (if s.enabled.contains(p) {
            0nat
        } else {
            counts::bytes_in(counts::rows_of(s.stats, p))
        })
    }
}

/// The bytes of every protocol that never gets its own row.
pub open spec fn unfeatured_bytes(ps: Seq<(Protocol, Seq<(counts::StatKeyView, Counter)>)>) -> nat
    decreases ps.len(),
{
    if ps.len() == 0 {
        0
    } else {
        unfeatured_bytes(ps.drop_last()) + (if parse::featured(ps.last().0) {
            0nat
        } else {
            counts::bytes_in(ps.last().1)
        })
    }
}

/// The bytes of everything not broken out individually.
pub open spec fn other_bytes(s: Scene) -> nat {
    folded_bytes(s, PROTO_ORDER@.len() as int) + unfeatured_bytes(s.stats)
}

/// The row of everything not broken out individually.
pub open spec fn other_row(s: Scene) -> RowView {
    let b = other_bytes(s) as u64;
    sum_row(RowKind::Other, parse::protocol_name(Protocol::Other), b, (s.meter)(b))
}

/// Whether that row shows.
pub open spec fn other_shown(s: Scene) -> bool {
    other_bytes(s) > 0 && allows(s.filter, other_row(s).cells)
}

/// The bytes of the grand total: what shows, and nothing else.
pub open spec fn total_bytes(s: Scene) -> nat {
    shown_bytes(s, PROTO_ORDER@.len() as int) + (if other_shown(s) {
        other_bytes(s)
    } else {
        0nat
    })
}

/// The grand total.
pub open spec fn total_row(s: Scene) -> RowView {
    let b = total_bytes(s) as u64;
    sum_row(RowKind::Total, "TOTAL"@, b, (s.meter)(b))
}

/// The whole table.
pub open spec fn report_rows(s: Scene) -> Seq<RowView> {
    let parts = sections(s, PROTO_ORDER@.len() as int);
    (if other_shown(s) {
        parts.push(other_row(s))
    } else {
        parts
    }).push(total_row(s))
}

/// Every row there was to show, before the display filter.
pub open spec fn all_offered(s: Scene) -> Seq<RowView> {
    let parts = offered(s, PROTO_ORDER@.len() as int);
    if other_bytes(s) > 0 {
        parts.push(other_row(s))
    } else {
        parts
    }
}

/// Whether a column gets a value filter.
pub open spec fn filterable(c: usize) -> bool {
    FILTERABLE_COLUMNS@.contains(c)
}

/// The values of a column.
pub open spec fn column_values(rs: Seq<RowView>, c: usize) -> Set<Seq<char>> {
    Set::new(
        |t: Seq<char>| exists|i: int| 0 <= i < rs.len() && (#[trigger] rs[i]).cells[c as int] == t,
    )
}

/// Whether a collection holds exactly the values of every filterable column.
pub open spec fn collects(seen: Map<usize, TextSet>, rs: Seq<RowView>) -> bool {
    &&& forall|c: usize| #[trigger]
        seen.contains_key(c) <==> filterable(c) && rs.len() > 0
    &&& forall|c: usize| #[trigger]
        seen.contains_key(c) ==> seen[c].members() == column_values(rs, c)
}

/// What a measuring function makes of a byte count.
pub open spec fn measured<M: Fn(u64) -> Measure>(measure: M, bytes: u64) -> MeasureView {
    (choose|m: Measure| call_ensures(measure, (bytes,), m))@
}

/// A measuring function as a mathematical one.
pub open spec fn meter_of<M: Fn(u64) -> Measure>(measure: M) -> spec_fn(u64) -> MeasureView {
    |b: u64| measured(measure, b)
}

/// Whether a function measures every byte count, always in the same way.
pub open spec fn is_meter<M: Fn(u64) -> Measure>(measure: M) -> bool {
    &&& forall|b: u64| call_requires(measure, (b,))
    &&& forall|b: u64, x: Measure, y: Measure|
        call_ensures(measure, (b,), x) && call_ensures(measure, (b,), y) ==> x@ == y@
}

/// What a report of a snapshot is made from.
pub open spec fn scene_of<M: Fn(u64) -> Measure>(
    snap: Snapshot,
    enabled: Set<Protocol>,
    filter: Map<usize, Seq<Seq<char>>>,
    measure: M,
) -> Scene {
    Scene {
        stats: snap.stats@,
        idle: stats::timed_view(snap.idle@),
        enabled,
        filter,
        meter: meter_of(measure),
    }
}

// ---- Sums -------------------------------------------------------------------------------

proof fn lemma_placed_bytes(
    l: Seq<(counts::StatKeyView, Counter)>,
    e: (counts::StatKeyView, Counter),
)
    ensures
        counts::bytes_in(rows::placed(l, e)) == counts::bytes_in(l) + e.1.bytes,
    decreases l.len(),
{
    if l.len() == 0 || rows::row_rank(l.last().0, e.0) != crate::order::Rank::After {
        assert(l.push(e).drop_last() =~= l);
    } else {
        lemma_placed_bytes(l.drop_last(), e);
        let p = rows::placed(l.drop_last(), e);
        assert(p.push(l.last()).drop_last() =~= p);
    }
}

/// Sorting keeps the bytes.
proof fn lemma_in_order_bytes(es: Seq<(counts::StatKeyView, Counter)>)
    ensures
        counts::bytes_in(rows::in_order(es)) == counts::bytes_in(es),
    decreases es.len(),
{
    if es.len() > 0 {
        lemma_in_order_bytes(es.drop_last());
        lemma_placed_bytes(rows::in_order(es.drop_last()), es.last());
    }
}

proof fn lemma_kept_bytes(f: Map<usize, Seq<Seq<char>>>, rs: Seq<RowView>)
    ensures
        bytes_of(kept(f, rs)) <= bytes_of(rs),
        kept(f, rs).len() <= rs.len(),
    decreases rs.len(),
{
    if rs.len() > 0 {
        lemma_kept_bytes(f, rs.drop_last());
        if allows(f, rs.last().cells) {
            assert(kept(f, rs).drop_last() =~= kept(f, rs.drop_last()));
        }
    }
}

proof fn lemma_kept_prefix_bytes(f: Map<usize, Seq<Seq<char>>>, rs: Seq<RowView>, n: int)
    requires
        0 <= n <= rs.len(),
    ensures
        bytes_of(kept(f, rs.take(n))) <= bytes_of(rs),
    decreases rs.len() - n,
{
    lemma_kept_bytes(f, rs.take(n));
    lemma_prefix_bytes(rs, n);
}

proof fn lemma_prefix_bytes(rs: Seq<RowView>, n: int)
    requires
        0 <= n <= rs.len(),
    ensures
        bytes_of(rs.take(n)) <= bytes_of(rs),
    decreases rs.len() - n,
{
    if n < rs.len() {
        lemma_prefix_bytes(rs, n + 1);
        assert(rs.take(n + 1).drop_last() =~= rs.take(n));
    } else {
        assert(rs.take(n) =~= rs);
    }
}

/// The rows on offer hold the bytes of the protocol.
pub proof fn lemma_candidate_bytes(s: Scene, p: Protocol)
    ensures
        bytes_of(candidates(s, p)) == counts::bytes_in(counts::rows_of(s.stats, p)),
{
    let live_rows = counts::rows_of(s.stats, p);
    rows::law_rows_are_sorted(live_rows);
    let live = rows::in_order(live_rows);
    if live.len() > 0 {
        lemma_in_order_bytes(live_rows);
        lemma_detail_bytes(s, p, live);
    } else {
        assert(live_rows =~= Seq::empty());
        match idle_from(s.idle, p, 0) {
            Some(n) => {
                lemma_no_bytes(candidates(s, p));
            },
            None => {},
        }
    }
}

proof fn lemma_no_bytes(rs: Seq<RowView>)
    requires
        forall|i: int| 0 <= i < rs.len() ==> (#[trigger] rs[i]).bytes is None,
    ensures
        bytes_of(rs) == 0,
    decreases rs.len(),
{
    if rs.len() > 0 {
        assert(rs[rs.len() - 1].bytes is None);
        assert forall|i: int| 0 <= i < rs.drop_last().len() implies (
        #[trigger] rs.drop_last()[i]).bytes is None by {
            assert(rs[i].bytes is None);
        }
        lemma_no_bytes(rs.drop_last());
    }
}

proof fn lemma_detail_bytes(s: Scene, p: Protocol, live: Seq<(counts::StatKeyView, Counter)>)
    ensures
        bytes_of(
            Seq::new(
                live.len(),
                |i: int| detail_row(p, live[i].0, live[i].1.bytes, (s.meter)(live[i].1.bytes)),
            ),
        ) == counts::bytes_in(live),
    decreases live.len(),
{
    let rs = Seq::new(
        live.len(),
        |i: int| detail_row(p, live[i].0, live[i].1.bytes, (s.meter)(live[i].1.bytes)),
    );
    if live.len() > 0 {
        let front = live.drop_last();
        lemma_detail_bytes(s, p, front);
        assert(rs.drop_last() =~= Seq::new(
            front.len(),
            |i: int| detail_row(p, front[i].0, front[i].1.bytes, (s.meter)(front[i].1.bytes)),
        ));
    }
}

/// The bytes of the first `n` protocols in display order.
pub open spec fn featured_bytes(
    ps: Seq<(Protocol, Seq<(counts::StatKeyView, Counter)>)>,
    n: int,
) -> nat
    decreases n,
{
    if n <= 0 {
        0
    } else {
        featured_bytes(ps, n - 1) + counts::bytes_in(counts::rows_of(ps, PROTO_ORDER@[n - 1]))
    }
}

proof fn lemma_order_distinct(i: int, j: int)
    requires
        0 <= i < j < PROTO_ORDER@.len(),
    ensures
        PROTO_ORDER@[i] != PROTO_ORDER@[j],
{
}

/// One more protocol adds its bytes to the featured ones exactly if it is one
/// of them.
proof fn lemma_featured_push(
    front: Seq<(Protocol, Seq<(counts::StatKeyView, Counter)>)>,
    p: Protocol,
    es: Seq<(counts::StatKeyView, Counter)>,
    n: int,
)
    requires
        counts::protocols_distinct(front.push((p, es))),
        0 <= n <= PROTO_ORDER@.len(),
    ensures
        featured_bytes(front.push((p, es)), n) == featured_bytes(front, n) + (if PROTO_ORDER@.take(
            n,
        ).contains(p) {
            counts::bytes_in(es)
        } else {
            0nat
        }),
    decreases n,
{
    let ps = front.push((p, es));
    if n > 0 {
        lemma_featured_push(front, p, es, n - 1);
        let q = PROTO_ORDER@[n - 1];
        let before = PROTO_ORDER@.take(n - 1);
        let now = PROTO_ORDER@.take(n);
        assert(now[n - 1] == q);
        assert(counts::protocol_at(ps, p, front.len() as int));
        counts::lemma_protocol_of(ps, p, front.len() as int);
        if counts::has_protocol(front, p) {
            let i = counts::protocol_of(front, p);
            assert(counts::protocol_at(front, p, i));
            assert(ps[i].0 != ps[front.len() as int].0);
        }
        if q == p {
            assert(counts::rows_of(front, q) =~= Seq::empty());
            if before.contains(p) {
                let i = before.index_of(p);
                lemma_order_distinct(i, n - 1);
            }
            assert(now.contains(p));
        } else {
            if counts::has_protocol(front, q) {
                let i = counts::protocol_of(front, q);
                assert(counts::protocol_at(front, q, i));
                assert(counts::protocol_at(ps, q, i));
                counts::lemma_protocol_of(ps, q, i);
            } else if counts::has_protocol(ps, q) {
                let i = counts::protocol_of(ps, q);
                assert(counts::protocol_at(ps, q, i));
                assert(counts::protocol_at(front, q, i));
            }
            if now.contains(p) {
                let i = now.index_of(p);
                assert(before[i] == p);
            }
            if before.contains(p) {
                let i = before.index_of(p);
                assert(now[i] == p);
            }
        }
    }
}

/// Every byte belongs to a featured protocol or to one that never gets its own
/// row.
pub proof fn lemma_partition(ps: Seq<(Protocol, Seq<(counts::StatKeyView, Counter)>)>)
    requires
        counts::protocols_distinct(ps),
    ensures
        featured_bytes(ps, PROTO_ORDER@.len() as int) + unfeatured_bytes(ps) == counts::bytes_over(
            ps,
        ),
    decreases ps.len(),
{
    let n = PROTO_ORDER@.len() as int;
    if ps.len() == 0 {
        lemma_no_featured(ps, n);
    } else {
        let front = ps.drop_last();
        let (p, es) = ps.last();
        lemma_partition(front);
        assert(ps =~= front.push((p, es)));
        lemma_featured_push(front, p, es, n);
        assert(PROTO_ORDER@.take(n) =~= PROTO_ORDER@);
    }
}

proof fn lemma_no_featured(ps: Seq<(Protocol, Seq<(counts::StatKeyView, Counter)>)>, n: int)
    requires
        ps.len() == 0,
    ensures
        featured_bytes(ps, n) == 0,
    decreases n,
{
    if n > 0 {
        lemma_no_featured(ps, n - 1);
        let p = PROTO_ORDER@[n - 1];
        if counts::has_protocol(ps, p) {
            assert(counts::protocol_at(ps, p, counts::protocol_of(ps, p)));
        }
    }
}

/// What is shown and what is folded of the first protocols never exceeds what
/// they carried.
proof fn lemma_split_bytes(s: Scene, n: int)
    requires
        0 <= n <= PROTO_ORDER@.len(),
    ensures
        shown_bytes(s, n) + folded_bytes(s, n) <= featured_bytes(s.stats, n),
    decreases n,
{
    if n > 0 {
        lemma_split_bytes(s, n - 1);
        let p = PROTO_ORDER@[n - 1];
        lemma_candidate_bytes(s, p);
        lemma_kept_bytes(s.filter, candidates(s, p));
    }
}

proof fn lemma_featured_grows(ps: Seq<(Protocol, Seq<(counts::StatKeyView, Counter)>)>, n: int, m: int)
    requires
        0 <= n <= m,
    ensures
        featured_bytes(ps, n) <= featured_bytes(ps, m),
    decreases m,
{
    if n < m {
        lemma_featured_grows(ps, n, m - 1);
    }
}

// ---- The report -----------------------------------------------------------------------

/// A rendered table plus the figures for the surrounding header and footer.
#[derive(Debug)]
pub struct Report {
    pub rows: Vec<Row>,
    pub packets: u64,
    pub bytes: u64,
    pub window_ns: u128,
    pub uptime_secs: u64,
    pub is_session_total: bool,
    /// Every distinct value seen per filterable column, for populating the
    /// GUI's dropdowns.
    pub seen_values: HashMap<usize, TextSet>,
}

fn take_measure<M: Fn(u64) -> Measure>(measure: &M, bytes: u64) -> (r: Measure)
    requires
        is_meter(*measure),
    ensures
        r@ == meter_of(*measure)(bytes),
{
    let r: Measure = measure(bytes);
    proof {
        let other = choose|m: Measure| call_ensures(*measure, (bytes,), m);
        assert(call_ensures(*measure, (bytes,), r));
        assert(call_ensures(*measure, (bytes,), other));
    }
    r
}

fn dash() -> (r: String)
    ensures
        r@ == NONE_STR@,
{
    NONE_STR.to_owned()
}

fn summing_row(kind: RowKind, name: String, bytes: u64, m: Measure) -> (r: Row)
    ensures
        r@ == sum_row(kind, name@, bytes, m@),
{
    let ghost wanted = sum_cells(name@, m.rate@, m.load@);
    let cells: [String; 11] = [
        name,
        dash(),
        dash(),
        dash(),
        dash(),
        dash(),
        dash(),
        dash(),
        dash(),
        m.rate,
        m.load,
    ];
    assert(cells_view(cells) =~= wanted);
    Row { kind, cells, bytes: Some(bytes), level: m.level, sim: false, redundant: false }
}

fn cells_of(p: Protocol, key: &StatKey, rate: String, load: String) -> (r: [String; 11])
    ensures
        cells_view(r) == key_cells(p, key@, rate@, load@),
{
    let ghost wanted = key_cells(p, key@, rate@, load@);
    let cells: [String; 11] = [
        p.name().to_owned(),
        key.vlans.vlan_label(),
        key.vlans.cos_label(),
        key.redundancy.to_string(),
        key.app.appid_label(),
        key.app.svid_label(),
        key.app.noasdu_label(),
        key.app.confrev_label(),
        key.app.sim_label(),
        rate,
        load,
    ];
    assert(cells_view(cells) =~= wanted);
    cells
}

/// Note a row's values in the filterable columns.
fn record_seen(seen: &mut HashMap<usize, TextSet>, row: &Row, Ghost(rs): Ghost<Seq<RowView>>)
    requires
        collects(old(seen)@, rs),
    ensures
        collects(final(seen)@, rs.push(row@)),
{
    let ghost before = seen@;
    let ghost after = rs.push(row@);
    let mut i: usize = 0;
    while i < FILTERABLE_COLUMNS.len()
        invariant
            i <= FILTERABLE_COLUMNS@.len(),
            collects(before, rs),
            after == rs.push(row@),
            forall|c: usize| #[trigger]
                seen@.contains_key(c) <==> (before.contains_key(c) || FILTERABLE_COLUMNS@.take(
                    i as int,
                ).contains(c)),
            forall|c: usize| #[trigger]
                seen@.contains_key(c) ==> seen@[c].members() == (if FILTERABLE_COLUMNS@.take(
                    i as int,
                ).contains(c) {
                    column_values(after, c)
                } else {
                    column_values(rs, c)
                }),
        decreases FILTERABLE_COLUMNS@.len() - i,
    {
        let col: usize = FILTERABLE_COLUMNS[i];
        let ghost done = FILTERABLE_COLUMNS@.take(i as int);
        let ghost next = FILTERABLE_COLUMNS@.take(i + 1);
        let ghost earlier = seen@;
        proof {
            assert(next[i as int] == col);
            assert(filterable(col)) by {
                assert(FILTERABLE_COLUMNS@[i as int] == col);
            }
            lemma_column_fresh(i as int);
            assert forall|c: usize| #[trigger] next.contains(c) <==> done.contains(c) || c
                == col by {
                if next.contains(c) {
                    let k = next.index_of(c);
                    if k < i {
                        assert(done[k] == c);
                    }
                }
                if done.contains(c) {
                    let k = done.index_of(c);
                    assert(next[k] == c);
                }
            }
        }
        let mut set: TextSet = match seen.remove(&col) {
            Some(set) => set,
            None => TextSet::new(),
        };
        proof {
            if earlier.contains_key(col) {
                assert(set.members() == column_values(rs, col));
            } else {
                assert(rs.len() == 0);
                assert(set.members() =~= column_values(rs, col));
            }
            lemma_column_values_push(rs, row@, col);
        }
        set.insert(row.cells[col].clone());
        seen.insert(col, set);
        i += 1;
    }
    proof {
        assert(FILTERABLE_COLUMNS@.take(i as int) =~= FILTERABLE_COLUMNS@);
    }
}

proof fn lemma_column_fresh(i: int)
    requires
        0 <= i < FILTERABLE_COLUMNS@.len(),
    ensures
        !FILTERABLE_COLUMNS@.take(i).contains(FILTERABLE_COLUMNS@[i]),
{
    let done = FILTERABLE_COLUMNS@.take(i);
    if done.contains(FILTERABLE_COLUMNS@[i]) {
        let k = done.index_of(FILTERABLE_COLUMNS@[i]);
        assert(FILTERABLE_COLUMNS@[k] == FILTERABLE_COLUMNS@[i] && k < i);
    }
}

proof fn lemma_column_values_push(rs: Seq<RowView>, row: RowView, c: usize)
    ensures
        column_values(rs.push(row), c) == column_values(rs, c).insert(row.cells[c as int]),
{
    let after = rs.push(row);
    assert forall|t: Seq<char>|
        column_values(after, c).contains(t) <==> column_values(rs, c).insert(
            row.cells[c as int],
        ).contains(t) by {
        if column_values(rs, c).contains(t) {
            let i = choose|i: int|
                0 <= i < rs.len() && (#[trigger] rs[i]).cells[c as int] == t;
            assert(after[i].cells[c as int] == t);
        }
        assert(after[rs.len() as int] == row);
        if column_values(after, c).contains(t) && t != row.cells[c as int] {
            let i = choose|i: int|
                0 <= i < after.len() && (#[trigger] after[i]).cells[c as int] == t;
            assert(rs[i].cells[c as int] == t);
        }
    }
    assert(column_values(after, c) =~= column_values(rs, c).insert(row.cells[c as int]));
}

proof fn lemma_rows_push(v: Seq<Row>, row: Row)
    ensures
        rows_view(v.push(row)) == rows_view(v).push(row@),
{
    assert(rows_view(v.push(row)) =~= rows_view(v).push(row@));
}

/// Append a live protocol's part of the table, giving the bytes it shows.
fn add_live<M: Fn(u64) -> Measure>(
    out: &mut Vec<Row>,
    seen: &mut HashMap<usize, TextSet>,
    p: Protocol,
    keys: &KeyMap,
    filter: &DisplayFilter,
    measure: &M,
    Ghost(s): Ghost<Scene>,
    Ghost(rs): Ghost<Seq<RowView>>,
) -> (r: u64)
    requires
        is_meter(*measure),
        s.meter == meter_of(*measure),
        within_columns(filter@),
        s.filter == filter@,
        keys@ == counts::rows_of(s.stats, p),
        keys@.len() > 0,
        counts::bytes_in(keys@) <= u64::MAX,
        collects(old(seen)@, rs),
    ensures
        rows_view(final(out)@) == rows_view(old(out)@) + section(s, p),
        collects(final(seen)@, rs + candidates(s, p)),
        r == bytes_of(shown(s, p)),
{
    let ghost before = rows_view(out@);
    let ghost live = rows::in_order(keys@);
    let ghost cands = candidates(s, p);
    proof {
        rows::law_rows_are_sorted(keys@);
        lemma_candidate_bytes(s, p);
    }
    let entries: &Vec<(StatKey, Counter)> = keys.entries();
    let order: Vec<usize> = display_order(keys);
    let mut sum: u64 = 0;
    let mut n_shown: usize = 0;
    let mut i: usize = 0;
    assert(before + kept(s.filter, cands.take(0)) =~= before);
    assert(rs + cands.take(0) =~= rs);
    while i < order.len()
        invariant
            i <= order@.len() == cands.len() == keys@.len(),
            is_meter(*measure),
            s.meter == meter_of(*measure),
            within_columns(filter@),
            s.filter == filter@,
            counts::entries_view(entries@) == keys@,
            forall|j: int| 0 <= j < order@.len() ==> (#[trigger] order@[j]) < keys@.len(),
            rows::picked(keys@, order@) == live,
            cands == Seq::new(
                live.len(),
                |i: int| detail_row(p, live[i].0, live[i].1.bytes, (s.meter)(live[i].1.bytes)),
            ),
            bytes_of(cands) <= u64::MAX,
            rows_view(out@) == before + kept(s.filter, cands.take(i as int)),
            collects(seen@, rs + cands.take(i as int)),
            sum == bytes_of(kept(s.filter, cands.take(i as int))),
            n_shown == kept(s.filter, cands.take(i as int)).len(),
            n_shown <= i,
        decreases order@.len() - i,
    {
        let entry: &(StatKey, Counter) = &entries[order[i]];
        let bytes: u64 = entry.1.bytes;
        let m: Measure = take_measure(measure, bytes);
        let level: LoadLevel = m.level;
        let ghost mv = m@;
        let row: Row = Row {
            kind: RowKind::Detail,
            cells: cells_of(p, &entry.0, m.rate, m.load),
            bytes: Some(bytes),
            level,
            sim: entry.0.app.is_sim(),
            redundant: entry.0.redundancy != Redundancy::Absent,
        };
        proof {
            assert(live[i as int] == keys@[order@[i as int] as int]);
            assert(row@ =~= cands[i as int]);
            let next = cands.take(i + 1);
            assert(next.drop_last() =~= cands.take(i as int));
            assert(next.last() == row@);
            assert(rs + next =~= (rs + cands.take(i as int)).push(row@));
            lemma_kept_prefix_bytes(s.filter, cands, i + 1);
        }
        record_seen(seen, &row, Ghost(rs + cands.take(i as int)));
        if filter.allows(&row.cells) {
            proof {
                let k = kept(s.filter, cands.take(i as int));
                assert(k.push(row@).drop_last() =~= k);
                assert(before + k.push(row@) =~= (before + k).push(row@));
                lemma_rows_push(out@, row);
            }
            sum = sum + bytes;
            n_shown = n_shown + 1;
            out.push(row);
        }
        i += 1;
    }
    assert(cands.take(i as int) =~= cands);
    // A subtotal only says something when there is more than one row to sum.
    if n_shown > 1 {
        let m: Measure = take_measure(measure, sum);
        let mut name: String = "Sum ".to_owned();
        name.append(p.name());
        let row: Row = summing_row(RowKind::Subtotal, name, sum, m);
        proof {
            lemma_rows_push(out@, row);
            assert(before + section(s, p) =~= (before + shown(s, p)).push(row@));
        }
        out.push(row);
    }
    sum
}

/// Append the last known rows of a protocol silent this window.
fn add_idle(
    out: &mut Vec<Row>,
    seen: &mut HashMap<usize, TextSet>,
    p: Protocol,
    last: &KeyMap,
    since_ns: u64,
    filter: &DisplayFilter,
    Ghost(rs): Ghost<Seq<RowView>>,
)
    requires
        within_columns(filter@),
        collects(old(seen)@, rs),
    ensures
        ({
            let keys = rows::in_order(last@);
            let cands = Seq::new(keys.len(), |i: int| idle_row(p, keys[i].0, since_ns));
            &&& rows_view(final(out)@) == rows_view(old(out)@) + kept(filter@, cands)
            &&& collects(final(seen)@, rs + cands)
        }),
{
    let ghost before = rows_view(out@);
    let ghost keys = rows::in_order(last@);
    let ghost cands = Seq::new(keys.len(), |i: int| idle_row(p, keys[i].0, since_ns));
    proof {
        rows::law_rows_are_sorted(last@);
    }
    let entries: &Vec<(StatKey, Counter)> = last.entries();
    let order: Vec<usize> = display_order(last);
    let mut i: usize = 0;
    assert(before + kept(filter@, cands.take(0)) =~= before);
    assert(rs + cands.take(0) =~= rs);
    while i < order.len()
        invariant
            i <= order@.len() == cands.len() == last@.len(),
            within_columns(filter@),
            counts::entries_view(entries@) == last@,
            forall|j: int| 0 <= j < order@.len() ==> (#[trigger] order@[j]) < last@.len(),
            rows::picked(last@, order@) == keys,
            cands == Seq::new(keys.len(), |i: int| idle_row(p, keys[i].0, since_ns)),
            rows_view(out@) == before + kept(filter@, cands.take(i as int)),
            collects(seen@, rs + cands.take(i as int)),
        decreases order@.len() - i,
    {
        let key: &StatKey = &entries[order[i]].0;
        let mut since: String = "idle ".to_owned();
        since.append(decimal(since_ns / NS_PER_SEC).as_str());
        since.append("s");
        let row: Row = Row {
            kind: RowKind::Idle,
            cells: cells_of(p, key, NO_RATE.to_owned(), since),
            bytes: None,
            level: LoadLevel::Normal,
            sim: key.app.is_sim(),
            redundant: key.redundancy != Redundancy::Absent,
        };
        proof {
            assert(keys[i as int] == last@[order@[i as int] as int]);
            assert(row@ =~= cands[i as int]);
            let next = cands.take(i + 1);
            assert(next.drop_last() =~= cands.take(i as int));
            assert(next.last() == row@);
            assert(rs + next =~= (rs + cands.take(i as int)).push(row@));
        }
        record_seen(seen, &row, Ghost(rs + cands.take(i as int)));
        if filter.allows(&row.cells) {
            proof {
                let k = kept(filter@, cands.take(i as int));
                assert(before + k.push(row@) =~= (before + k).push(row@));
                lemma_rows_push(out@, row);
            }
            out.push(row);
        }
        i += 1;
    }
    assert(cands.take(i as int) =~= cands);
}

/// Find the idle entry of a protocol.
fn find_idle(idle: &Vec<(Protocol, KeyMap, u64)>, p: Protocol) -> (r: Option<usize>)
    ensures
        match r {
            Some(i) => i < idle@.len() && idle_from(stats::timed_view(idle@), p, 0) == Some(
                i as int,
            ),
            None => idle_from(stats::timed_view(idle@), p, 0) is None,
        },
{
    let ghost all = stats::timed_view(idle@);
    let mut i: usize = 0;
    while i < idle.len()
        invariant
            i <= idle@.len(),
            all == stats::timed_view(idle@),
            idle_from(all, p, 0) == idle_from(all, p, i as int),
        decreases idle@.len() - i,
    {
        if idle[i].0 == p {
            return Some(i);
        }
        i += 1;
    }
    None
}

/// The bytes of every protocol that never gets its own row.
fn sum_unfeatured(protocols: &Vec<(Protocol, KeyMap)>) -> (r: u64)
    requires
        counts::bytes_over(counts::protocols_view(protocols@)) <= u64::MAX,
    ensures
        r == unfeatured_bytes(counts::protocols_view(protocols@)),
{
    let ghost ps = counts::protocols_view(protocols@);
    let mut sum: u64 = 0;
    let mut i: usize = 0;
    while i < protocols.len()
        invariant
            i <= protocols@.len(),
            ps == counts::protocols_view(protocols@),
            counts::bytes_over(ps) <= u64::MAX,
            sum == unfeatured_bytes(ps.take(i as int)),
            sum <= counts::bytes_over(ps.take(i as int)),
        decreases protocols@.len() - i,
    {
        proof {
            let next = ps.take(i + 1);
            assert(next.drop_last() =~= ps.take(i as int));
            assert(next.last() == (protocols@[i as int].0, protocols@[i as int].1@));
            counts::lemma_prefix_within_over(ps, i + 1);
        }
        if !protocols[i].0.is_featured() {
            let b: u64 = sum_bytes(&protocols[i].1);
            sum = sum + b;
        }
        i += 1;
    }
    assert(ps.take(i as int) =~= ps);
    sum
}

/// The bytes of a protocol's rows.
fn sum_bytes(rows: &KeyMap) -> (r: u64)
    requires
        counts::bytes_in(rows@) <= u64::MAX,
    ensures
        r == counts::bytes_in(rows@),
{
    let entries: &Vec<(StatKey, Counter)> = rows.entries();
    let mut sum: u64 = 0;
    let mut i: usize = 0;
    while i < entries.len()
        invariant
            i <= entries@.len(),
            counts::entries_view(entries@) == rows@,
            counts::bytes_in(rows@) <= u64::MAX,
            sum == counts::bytes_in(rows@.take(i as int)),
        decreases entries@.len() - i,
    {
        proof {
            assert(rows@.take(i + 1).drop_last() =~= rows@.take(i as int));
            assert(rows@.take(i + 1).last().1 == entries@[i as int].1);
            counts::lemma_prefix_within_total(rows@, i + 1);
        }
        sum = sum + entries[i].1.bytes;
        i += 1;
    }
    assert(rows@.take(i as int) =~= rows@);
    sum
}

/// Build the table for one snapshot.
///
/// `enabled` selects which protocols are broken out of `Other`; `measure` says
/// what a byte count over the snapshot's window amounts to, as a rate and as a
/// share of the link.
pub fn build_report<M: Fn(u64) -> Measure>(
    snap: &Snapshot,
    enabled: &ProtocolSet,
    display_filter: &DisplayFilter,
    measure: M,
) -> (r: Report)
    requires
        is_meter(measure),
        within_columns(display_filter@),
        counts::bytes_over(snap.stats@) <= u64::MAX,
    ensures
        rows_view(r.rows@) == report_rows(scene_of(*snap, enabled@, display_filter@, measure)),
        collects(
            r.seen_values@,
            all_offered(scene_of(*snap, enabled@, display_filter@, measure)),
        ),
        r.packets == snap.packets,
        r.bytes == snap.bytes,
        r.window_ns == stats::longer(snap.window_ns, stats::MIN_WINDOW_NS),
        r.uptime_secs == snap.uptime_secs,
        r.is_session_total == snap.is_session_total,
{
    let ghost s = scene_of(*snap, enabled@, display_filter@, measure);
    let ghost n_all = PROTO_ORDER@.len() as int;
    let protocols: &Vec<(Protocol, KeyMap)> = snap.stats.protocols();
    proof {
        lemma_partition(s.stats);
    }
    let mut out: Vec<Row> = Vec::new();
    let mut seen: HashMap<usize, TextSet> = HashMap::new();
    let mut grand: u64 = 0;
    let mut other: u64 = 0;
    let mut i: usize = 0;
    assert(rows_view(out@) =~= sections(s, 0));
    while i < PROTO_ORDER.len()
        invariant
            i <= PROTO_ORDER@.len() == n_all,
            s == scene_of(*snap, enabled@, display_filter@, measure),
            is_meter(measure),
            within_columns(display_filter@),
            counts::bytes_over(s.stats) <= u64::MAX,
            featured_bytes(s.stats, n_all) + unfeatured_bytes(s.stats) == counts::bytes_over(
                s.stats,
            ),
            rows_view(out@) == sections(s, i as int),
            collects(seen@, offered(s, i as int)),
            grand == shown_bytes(s, i as int),
            other == folded_bytes(s, i as int),
        decreases PROTO_ORDER@.len() - i,
    {
        let p: Protocol = PROTO_ORDER[i];
        proof {
            lemma_split_bytes(s, i + 1);
            lemma_featured_grows(s.stats, i + 1, n_all);
            counts::lemma_rows_within_over(s.stats, p);
            lemma_candidate_bytes(s, p);
        }
        let keys: Option<&KeyMap> = snap.stats.get(p);
        if !enabled.contains(p) {
            // Not broken out: its traffic belongs to the Other row.
            if let Some(rows) = keys {
                let b: u64 = sum_bytes(rows);
                other = other + b;
            }
        } else {
            let live: bool = match keys {
                Some(rows) => !rows.is_empty(),
                None => false,
            };
            proof {
                rows::law_rows_are_sorted(counts::rows_of(s.stats, p));
            }
            if live {
                if let Some(rows) = keys {
                    let b: u64 = add_live(
                        &mut out,
                        &mut seen,
                        p,
                        rows,
                        display_filter,
                        &measure,
                        Ghost(s),
                        Ghost(offered(s, i as int)),
                    );
                    grand = grand + b;
                }
            } else {
                // Silent this window. Keep the last known rows visible rather
                // than letting the protocol disappear, which would be
                // indistinguishable from never having been detected at all.
                proof {
                    lemma_kept_bytes(s.filter, candidates(s, p));
                }
                match find_idle(&snap.idle, p) {
                    Some(n) => {
                        add_idle(
                            &mut out,
                            &mut seen,
                            p,
                            &snap.idle[n].1,
                            snap.idle[n].2,
                            display_filter,
                            Ghost(offered(s, i as int)),
                        );
                    },
                    None => {
                        assert(sections(s, i as int) + section(s, p) =~= sections(s, i as int));
                        assert(offered(s, i as int) + candidates(s, p) =~= offered(s, i as int));
                    },
                }
            }
        }
        i += 1;
    }
    proof {
        lemma_split_bytes(s, n_all);
    }
    // Every protocol that never gets its own row.
    let rest: u64 = sum_unfeatured(protocols);
    other = other + rest;
    if other > 0 {
        let m: Measure = take_measure(&measure, other);
        let row: Row = summing_row(RowKind::Other, Protocol::Other.name().to_owned(), other, m);
        assert(row@ == other_row(s));
        record_seen(&mut seen, &row, Ghost(offered(s, n_all)));
        if display_filter.allows(&row.cells) {
            proof {
                lemma_rows_push(out@, row);
            }
            grand = grand + other;
            out.push(row);
        }
    }
    let m: Measure = take_measure(&measure, grand);
    let row: Row = summing_row(RowKind::Total, "TOTAL".to_owned(), grand, m);
    proof {
        assert(row@ == total_row(s));
        lemma_rows_push(out@, row);
    }
    out.push(row);
    Report {
        rows: out,
        packets: snap.packets,
        bytes: snap.bytes,
        window_ns: if snap.window_ns >= stats::MIN_WINDOW_NS {
            snap.window_ns
        } else {
            stats::MIN_WINDOW_NS
        },
        uptime_secs: snap.uptime_secs,
        is_session_total: snap.is_session_total,
        seen_values: seen,
    }
}

} // verus!
