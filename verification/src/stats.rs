//! Rolling-window statistics shared by both front ends.
//!
//! Three sets of counters are kept at once, because each answers a question
//! the others cannot:
//!
//! * **current**: the window still filling. Never displayed directly, so the
//!   table can't race a half-collected window and show a dip that isn't real.
//! * **display**: a snapshot of the last *completed* window. This is what
//!   rates and load percentages are computed from.
//! * **session**: cumulative totals for the whole run, never rotated. When a
//!   capture stops, the final window may be empty for a bursty protocol that
//!   carried plenty of traffic earlier; without this there would be nothing
//!   honest to show in a summary.
//!
//! Alongside those, the last *non-empty* window per protocol is retained so a
//! sparse protocol's rows stay on screen between bursts. A row vanishing the
//! instant traffic pauses looks identical to "never detected", which is a
//! materially misleading thing to show an operator.
//!
//! All times are whole nanoseconds. The clock is the caller's: every
//! operation that depends on the time takes it as an argument. Capture
//! timestamps, and what they cover, reach further than the clock does.
use crate::counts;
pub use crate::counts::{Counter, KeyMap, StatKey, StatsMap};
use crate::parse;
use crate::parse::{Frame, Protocol};
use vstd::prelude::*;

verus! {

/// Nanoseconds in a second.
pub const NS_PER_SEC: u64 = 1_000_000_000;

/// The shortest window a rate is ever computed over: one millisecond.
pub const MIN_WINDOW_NS: u128 = 1_000_000;

/// The time from `from` to `to`, zero if the clock went backwards.
pub open spec fn elapsed(from: u64, to: u64) -> u64 {
    if to >= from {
        (to - from) as u64
    } else {
        0
    }
}

/// The larger of two times.
pub open spec fn longer(a: u128, b: u128) -> u128 {
    if a >= b {
        a
    } else {
        b
    }
}

/// The whole seconds in a time, at most `u64::MAX`.
pub open spec fn whole_seconds(ns: u128) -> u64 {
    if ns / 1_000_000_000 <= u64::MAX {
        (ns / 1_000_000_000) as u64
    } else {
        u64::MAX
    }
}

fn seconds_in(ns: u128) -> (r: u64)
    ensures
        r == whole_seconds(ns),
{
    let secs: u128 = ns / 1_000_000_000;
    if secs <= u64::MAX as u128 {
        secs as u64
    } else {
        u64::MAX
    }
}

fn since(from: u64, to: u64) -> (r: u64)
    ensures
        r == elapsed(from, to),
{
    if to >= from {
        to - from
    } else {
        0
    }
}

fn longest(a: u128, b: u128) -> (r: u128)
    ensures
        r == longer(a, b),
{
    if a >= b {
        a
    } else {
        b
    }
}

// ---- Time spans --------------------------------------------------------------------

/// The range of capture timestamps covered by some set of frames.
///
/// Empty when the backend supplies no timestamps, which is the normal case
/// for the raw-socket path where arrival time already is capture time.
#[derive(Clone, Copy, Debug, PartialEq, Eq, Structural)]
pub struct TimeSpan {
    pub min: Option<u128>,
    pub max: Option<u128>,
}

/// A span without any timestamp.
pub open spec fn no_span() -> TimeSpan {
    TimeSpan { min: None, max: None }
}

/// A span widened to a timestamp. A timestamp of zero is none at all.
pub open spec fn widened(s: TimeSpan, ts: Option<u128>) -> TimeSpan {
    match ts {
        None => s,
        Some(t) => if t == 0 {
            s
        } else {
            TimeSpan {
                min: Some(
                    match s.min {
                        Some(m) => if m <= t {
                            m
                        } else {
                            t
                        },
                        None => t,
                    },
                ),
                max: Some(
                    match s.max {
                        Some(m) => if m >= t {
                            m
                        } else {
                            t
                        },
                        None => t,
                    },
                ),
            }
        },
    }
}

/// The time between the earliest and the latest timestamp, zero if unknown.
pub open spec fn covered(s: TimeSpan) -> u128 {
    match (s.min, s.max) {
        (Some(a), Some(b)) => if b >= a {
            (b - a) as u128
        } else {
            0
        },
        _ => 0,
    }
}

impl Default for TimeSpan {
    fn default() -> (r: TimeSpan)
        ensures
            r == no_span(),
    {
        TimeSpan { min: None, max: None }
    }
}

impl TimeSpan {
    pub fn observe(&mut self, ts: Option<u128>)
        ensures
            *final(self) == widened(*old(self), ts),
    {
        if let Some(t) = ts {
            if t > 0 {
                let min: u128 = match self.min {
                    Some(m) => if m <= t {
                        m
                    } else {
                        t
                    },
                    None => t,
                };
                let max: u128 = match self.max {
                    Some(m) => if m >= t {
                        m
                    } else {
                        t
                    },
                    None => t,
                };
                *self = TimeSpan { min: Some(min), max: Some(max) };
            }
        }
    }

    /// Widen to everything another span covers.
    pub fn merge(&mut self, other: TimeSpan)
        ensures
            *final(self) == widened(widened(*old(self), other.min), other.max),
    {
        self.observe(other.min);
        self.observe(other.max);
    }

    /// Nanoseconds between the earliest and latest frame, if known.
    pub fn nanos(&self) -> (r: Option<u128>)
        ensures
            match r {
                Some(n) => n > 0 && n == covered(*self),
                None => covered(*self) == 0,
            },
    {
        match (self.min, self.max) {
            (Some(a), Some(b)) => if b > a {
                Some(b - a)
            } else {
                None
            },
            _ => None,
        }
    }
}

// ---- Batches -------------------------------------------------------------------------

/// One completed batch handed from a capture thread to the shared engine.
#[derive(Debug)]
pub struct Batch {
    pub stats: StatsMap,
    pub packets: u64,
    pub bytes: u64,
    pub span: TimeSpan,
}

/// A pre-aggregator sitting in front of the shared engine.
///
/// Capture threads fold frames in here without touching a lock, and hand the
/// whole batch over at once. At Sampled Values rates a stream collapses to a
/// single key, so 200 frames become one merge under lock instead of 200.
pub struct BatchAccum {
    map: StatsMap,
    packets: u64,
    bytes: u64,
    since: u64,
    max_pkts: usize,
    max_ns: u64,
    span: TimeSpan,
}

/// The content of a [`BatchAccum`].
pub ghost struct BatchAccumView {
    pub stats: Seq<(Protocol, Seq<(counts::StatKeyView, Counter)>)>,
    pub packets: u64,
    pub bytes: u64,
    pub span: TimeSpan,
    /// When the batch was opened.
    pub since: u64,
    pub max_pkts: usize,
    pub max_ns: u64,
}

impl View for BatchAccum {
    type V = BatchAccumView;

    closed spec fn view(&self) -> BatchAccumView {
        BatchAccumView {
            stats: self.map@,
            packets: self.packets,
            bytes: self.bytes,
            span: self.span,
            since: self.since,
            max_pkts: self.max_pkts,
            max_ns: self.max_ns,
        }
    }
}

/// Whether a batch is ready to flush: enough packets, or enough time.
pub open spec fn batch_full(b: BatchAccumView, now: u64) -> bool {
    b.packets >= b.max_pkts || elapsed(b.since, now) >= b.max_ns
}

/// A batch after folding one frame in.
pub open spec fn batch_with(
    b: BatchAccumView,
    frame: parse::FrameView,
    size: u64,
    ts: Option<u128>,
) -> BatchAccumView {
    BatchAccumView {
        stats: counts::counted(b.stats, frame.proto, counts::key_of(frame), counts::packet(size)),
        packets: (b.packets + 1) as u64,
        bytes: (b.bytes + size) as u64,
        span: widened(b.span, ts),
        ..b
    }
}

impl BatchAccum {
    /// The totals are those of the rows.
    #[verifier::type_invariant]
    closed spec fn inv(self) -> bool {
        &&& self.packets == counts::packets_over(self.map@)
        &&& self.bytes == counts::bytes_over(self.map@)
    }

    pub fn new(max_pkts: usize, max_ns: u64, now: u64) -> (r: BatchAccum)
        ensures
            r@ == (BatchAccumView {
                stats: Seq::empty(),
                packets: 0,
                bytes: 0,
                span: no_span(),
                since: now,
                max_pkts,
                max_ns,
            }),
    {
        BatchAccum {
            map: StatsMap::new(),
            packets: 0,
            bytes: 0,
            since: now,
            max_pkts,
            max_ns,
            span: TimeSpan::default(),
        }
    }

    /// Fold one frame in. Returns `true` when the batch is ready to flush.
    ///
    /// The time bound matters as much as the packet bound: on a quiet network
    /// waiting for 200 frames could stall the display for minutes.
    ///
    /// `ts` is the frame's own capture timestamp where the backend provides
    /// one. It is what keeps rates honest when frames reach us in bursts
    /// rather than as they were captured.
    pub fn push(&mut self, frame: &Frame, size: u64, ts: Option<u128>, now: u64) -> (r: bool)
        requires
            old(self)@.packets < u64::MAX,
            old(self)@.bytes + size <= u64::MAX,
        ensures
            final(self)@ == batch_with(old(self)@, frame@, size, ts),
            r == batch_full(final(self)@, now),
    {
        proof {
            use_type_invariant(&*self);
            counts::lemma_tally_of_within(self.map@, frame.proto, counts::key_of(frame@));
        }
        let mut old_self: BatchAccum = BatchAccum::new(self.max_pkts, self.max_ns, self.since);
        std::mem::swap(self, &mut old_self);
        proof {
            use_type_invariant(&old_self);
        }
        let BatchAccum { map, packets, bytes, since, max_pkts, max_ns, span } = old_self;
        let mut map: StatsMap = map;
        let mut span: TimeSpan = span;
        map.add(frame.proto, StatKey::of(frame), Counter { packets: 1, bytes: size });
        span.observe(ts);
        *self = BatchAccum {
            map,
            packets: packets + 1,
            bytes: bytes + size,
            since,
            max_pkts,
            max_ns,
            span,
        };
        self.is_full(now)
    }

    pub fn is_full(&self, now: u64) -> (r: bool)
        ensures
            r == batch_full(self@, now),
    {
        self.packets >= self.max_pkts as u64 || since(self.since, now) >= self.max_ns
    }

    /// Whether a frame of the given size can be folded in without a counter
    /// running over.
    pub fn has_room(&self, size: u64) -> (r: bool)
        ensures
            r == (self@.packets < u64::MAX && self@.bytes + size <= u64::MAX),
    {
        self.packets < u64::MAX && self.bytes <= u64::MAX - size
    }

    pub fn is_empty(&self) -> (r: bool)
        ensures
            r == (self@.packets == 0),
    {
        self.packets == 0
    }

    /// Take the accumulated batch, resetting for the next one.
    pub fn take(&mut self, now: u64) -> (r: Batch)
        ensures
            r.stats@ == old(self)@.stats,
            r.packets == old(self)@.packets,
            r.bytes == old(self)@.bytes,
            r.span == old(self)@.span,
            r.packets == counts::packets_over(r.stats@),
            r.bytes == counts::bytes_over(r.stats@),
            final(self)@ == (BatchAccumView {
                stats: Seq::empty(),
                packets: 0,
                bytes: 0,
                span: no_span(),
                since: now,
                ..old(self)@
            }),
    {
        let mut full: BatchAccum = BatchAccum::new(self.max_pkts, self.max_ns, now);
        std::mem::swap(self, &mut full);
        proof {
            use_type_invariant(&full);
        }
        let BatchAccum { map, packets, bytes, since, max_pkts, max_ns, span } = full;
        Batch { stats: map, packets, bytes, span }
    }
}

// ---- The engine: model -----------------------------------------------------------------

/// The content of a [`Stats`].
pub ghost struct StatsView {
    /// The window still filling.
    pub cur: Seq<(Protocol, Seq<(counts::StatKeyView, Counter)>)>,
    /// The last completed window.
    pub disp: Seq<(Protocol, Seq<(counts::StatKeyView, Counter)>)>,
    /// The whole run.
    pub session: Seq<(Protocol, Seq<(counts::StatKeyView, Counter)>)>,
    /// The last non-empty window of each protocol, and when it closed.
    pub last_active: Seq<(Protocol, Seq<(counts::StatKeyView, Counter)>, u64)>,
    pub win_start: u64,
    pub win_ns: u128,
    /// Capture timestamps of the window still filling.
    pub cur_span: TimeSpan,
    pub packets: u64,
    pub bytes: u64,
    pub started: u64,
}

/// Whether so many packets and bytes can be counted without any counter
/// running over, whichever rows they fall in.
pub open spec fn room_for(s: StatsView, packets: nat, bytes: nat) -> bool {
    &&& counts::packets_over(s.session) + packets <= u64::MAX
    &&& counts::bytes_over(s.session) + bytes <= u64::MAX
    &&& s.packets + packets <= u64::MAX
    &&& s.bytes + bytes <= u64::MAX
}

/// Whether no row of the window still filling counts more than its row of the
/// whole run.
pub open spec fn within_session(
    cur: Seq<(Protocol, Seq<(counts::StatKeyView, Counter)>)>,
    session: Seq<(Protocol, Seq<(counts::StatKeyView, Counter)>)>,
) -> bool {
    forall|p: Protocol, k: counts::StatKeyView|
        {
            &&& (#[trigger] counts::tally_of(cur, p, k)).packets <= counts::tally_of(
                session,
                p,
                k,
            ).packets
            &&& counts::tally_of(cur, p, k).bytes <= counts::tally_of(session, p, k).bytes
        }
}

/// Whether the running totals are those of the session's rows.
pub open spec fn balanced(s: StatsView) -> bool {
    &&& s.packets == counts::packets_over(s.session)
    &&& s.bytes == counts::bytes_over(s.session)
}

/// A fresh engine.
pub open spec fn fresh(now: u64) -> StatsView {
    StatsView {
        cur: Seq::empty(),
        disp: Seq::empty(),
        session: Seq::empty(),
        last_active: Seq::empty(),
        win_start: now,
        win_ns: MIN_WINDOW_NS,
        cur_span: no_span(),
        packets: 0,
        bytes: 0,
        started: now,
    }
}

/// The engine after recording one frame.
pub open spec fn recorded(s: StatsView, frame: parse::FrameView, size: u64) -> StatsView {
    let k = counts::key_of(frame);
    let c = counts::packet(size);
    StatsView {
        cur: counts::counted(s.cur, frame.proto, k, c),
        session: counts::counted(s.session, frame.proto, k, c),
        packets: (s.packets + 1) as u64,
        bytes: (s.bytes + size) as u64,
        ..s
    }
}

/// The engine after merging a batch.
pub open spec fn batch_merged(
    s: StatsView,
    stats: Seq<(Protocol, Seq<(counts::StatKeyView, Counter)>)>,
    packets: u64,
    bytes: u64,
    span: TimeSpan,
) -> StatsView {
    StatsView {
        cur: counts::merged(s.cur, stats),
        session: counts::merged(s.session, stats),
        cur_span: widened(widened(s.cur_span, span.min), span.max),
        packets: (s.packets + packets) as u64,
        bytes: (s.bytes + bytes) as u64,
        ..s
    }
}

/// Whether a protocol's last active window stands at `i`.
pub open spec fn active_at(
    las: Seq<(Protocol, Seq<(counts::StatKeyView, Counter)>, u64)>,
    p: Protocol,
    i: int,
) -> bool {
    0 <= i < las.len() && las[i].0 == p
}

/// Whether a protocol has been active.
pub open spec fn was_active(
    las: Seq<(Protocol, Seq<(counts::StatKeyView, Counter)>, u64)>,
    p: Protocol,
) -> bool {
    exists|i: int| active_at(las, p, i)
}

/// Whether no protocol stands twice.
pub open spec fn actives_distinct(
    las: Seq<(Protocol, Seq<(counts::StatKeyView, Counter)>, u64)>,
) -> bool {
    forall|i: int, j: int|
        #![trigger las[i], las[j]]
        0 <= i < j < las.len() ==> las[i].0 != las[j].0
}

/// The last active windows after a protocol's rows closed at `t`.
pub open spec fn noted(
    las: Seq<(Protocol, Seq<(counts::StatKeyView, Counter)>, u64)>,
    p: Protocol,
    rows: Seq<(counts::StatKeyView, Counter)>,
    t: u64,
) -> Seq<(Protocol, Seq<(counts::StatKeyView, Counter)>, u64)> {
    if was_active(las, p) {
        las.update(choose|i: int| active_at(las, p, i), (p, rows, t))
    } else {
        las.push((p, rows, t))
    }
}

/// The last active windows after a window closed at `t`: every protocol with
/// rows in it was active then.
pub open spec fn refreshed(
    las: Seq<(Protocol, Seq<(counts::StatKeyView, Counter)>, u64)>,
    disp: Seq<(Protocol, Seq<(counts::StatKeyView, Counter)>)>,
    t: u64,
) -> Seq<(Protocol, Seq<(counts::StatKeyView, Counter)>, u64)>
    decreases disp.len(),
{
    if disp.len() == 0 {
        las
    } else {
        let front = refreshed(las, disp.drop_last(), t);
        let (p, rows) = disp.last();
        if rows.len() > 0 {
            noted(front, p, rows, t)
        } else {
            front
        }
    }
}

/// How long a window is: by the clock, or the stretch of capture time its
/// frames cover where that is longer, and never less than the minimum.
pub open spec fn window_length(start: u64, span: TimeSpan, now: u64) -> u128 {
    longer(longer(elapsed(start, now) as u128, covered(span)), MIN_WINDOW_NS)
}

/// The engine after closing the current window.
pub open spec fn rotated(s: StatsView, now: u64) -> StatsView {
    StatsView {
        cur: Seq::empty(),
        disp: s.cur,
        last_active: refreshed(s.last_active, s.cur, now),
        win_start: now,
        win_ns: window_length(s.win_start, s.cur_span, now),
        cur_span: no_span(),
        ..s
    }
}

/// The protocols that were active before but are silent in `disp`, with their
/// last rows and the time since.
pub open spec fn idle_rows(
    las: Seq<(Protocol, Seq<(counts::StatKeyView, Counter)>, u64)>,
    disp: Seq<(Protocol, Seq<(counts::StatKeyView, Counter)>)>,
    now: u64,
) -> Seq<(Protocol, Seq<(counts::StatKeyView, Counter)>, u64)>
    decreases las.len(),
{
    if las.len() == 0 {
        Seq::empty()
    } else {
        let front = idle_rows(las.drop_last(), disp, now);
        let (p, rows, at) = las.last();
        if counts::rows_of(disp, p).len() == 0 {
            front.push((p, rows, elapsed(at, now)))
        } else {
            front
        }
    }
}

// ---- The engine --------------------------------------------------------------------------

/// The shared statistics engine.
pub struct Stats {
    cur: StatsMap,
    disp: StatsMap,
    session: StatsMap,
    last_active: Vec<(Protocol, KeyMap, u64)>,
    win_start: u64,
    win_ns: u128,
    cur_span: TimeSpan,
    packets: u64,
    bytes: u64,
    started: u64,
}

/// The content of a list of protocols with their rows and a time.
pub open spec fn timed_view(
    v: Seq<(Protocol, KeyMap, u64)>,
) -> Seq<(Protocol, Seq<(counts::StatKeyView, Counter)>, u64)> {
    Seq::new(v.len(), |i: int| (v[i].0, v[i].1@, v[i].2))
}

/// An immutable view of the statistics, safe to render from without a lock.
#[derive(Debug)]
pub struct Snapshot {
    pub stats: StatsMap,
    /// `(protocol, last known rows, nanoseconds since last seen)`.
    pub idle: Vec<(Protocol, KeyMap, u64)>,
    /// Nanoseconds the counters in `stats` cover: the divisor for every rate.
    pub window_ns: u128,
    pub packets: u64,
    pub bytes: u64,
    pub uptime_secs: u64,
    /// Whether this covers the whole run rather than one window.
    pub is_session_total: bool,
}

impl Snapshot {
    /// Build a snapshot from an offline load, where the capture's own span
    /// stands in for a live window's elapsed time.
    pub fn offline(stats: StatsMap, duration_ns: u128, packets: u64, bytes: u64) -> (r: Snapshot)
        ensures
            r.stats@ == stats@,
            r.idle@.len() == 0,
            r.window_ns == longer(duration_ns, MIN_WINDOW_NS),
            r.packets == packets,
            r.bytes == bytes,
            r.uptime_secs == whole_seconds(duration_ns),
            r.is_session_total,
    {
        Snapshot {
            stats,
            idle: Vec::new(),
            window_ns: longest(duration_ns, MIN_WINDOW_NS),
            packets,
            bytes,
            uptime_secs: seconds_in(duration_ns),
            is_session_total: true,
        }
    }
}

impl View for Stats {
    type V = StatsView;

    closed spec fn view(&self) -> StatsView {
        StatsView {
            cur: self.cur@,
            disp: self.disp@,
            session: self.session@,
            last_active: timed_view(self.last_active@),
            win_start: self.win_start,
            win_ns: self.win_ns,
            cur_span: self.cur_span,
            packets: self.packets,
            bytes: self.bytes,
            started: self.started,
        }
    }
}

impl Stats {
    /// The window still filling never counts more than the whole run.
    #[verifier::type_invariant]
    closed spec fn inv(self) -> bool {
        &&& within_session(self.cur@, self.session@)
        &&& actives_distinct(timed_view(self.last_active@))
    }

    pub fn new(now: u64) -> (r: Stats)
        ensures
            r@ == fresh(now),
    {
        let r = Stats {
            cur: StatsMap::new(),
            disp: StatsMap::new(),
            session: StatsMap::new(),
            last_active: Vec::new(),
            win_start: now,
            win_ns: MIN_WINDOW_NS,
            cur_span: TimeSpan::default(),
            packets: 0,
            bytes: 0,
            started: now,
        };
        assert(timed_view(r.last_active@) =~= Seq::empty());
        r
    }

    /// Whether so many packets and bytes can be counted without any counter
    /// running over, whichever rows they fall in.
    pub fn has_room(&self, packets: u64, bytes: u64) -> (r: bool)
        ensures
            r == room_for(self@, packets as nat, bytes as nat),
    {
        match self.session.total() {
            None => false,
            Some(t) => t.packets <= u64::MAX - packets && t.bytes <= u64::MAX - bytes
                && self.packets <= u64::MAX - packets && self.bytes <= u64::MAX - bytes,
        }
    }

    /// Merge a completed batch from a capture thread.
    pub fn merge_batch(&mut self, batch: &Batch)
        requires
            counts::all_addable(old(self)@.session, batch.stats@),
            old(self)@.packets + batch.packets <= u64::MAX,
            old(self)@.bytes + batch.bytes <= u64::MAX,
        ensures
            final(self)@ == batch_merged(
                old(self)@,
                batch.stats@,
                batch.packets,
                batch.bytes,
                batch.span,
            ),
    {
        proof {
            use_type_invariant(&*self);
        }
        let mut cur: StatsMap = StatsMap::new();
        let mut session: StatsMap = StatsMap::new();
        let mut span: TimeSpan = self.cur_span;
        std::mem::swap(&mut self.cur, &mut cur);
        std::mem::swap(&mut self.session, &mut session);
        proof {
            assert forall|p: Protocol, k: counts::StatKeyView|
                counts::addable(
                    #[trigger] counts::tally_of(cur@, p, k),
                    counts::tally_of(batch.stats@, p, k),
                ) by {
                assert(counts::addable(
                    counts::tally_of(session@, p, k),
                    counts::tally_of(batch.stats@, p, k),
                ));
            }
        }
        session.merge(&batch.stats);
        cur.merge(&batch.stats);
        span.merge(batch.span);
        self.session = session;
        self.cur = cur;
        self.cur_span = span;
        self.packets += batch.packets;
        self.bytes += batch.bytes;
    }

    /// Record a single frame directly, for low-rate backends where batching
    /// would only add latency.
    pub fn record(&mut self, frame: &Frame, size: u64)
        requires
            counts::addable(
                counts::tally_of(old(self)@.session, frame@.proto, counts::key_of(frame@)),
                counts::packet(size),
            ),
            old(self)@.packets < u64::MAX,
            old(self)@.bytes + size <= u64::MAX,
        ensures
            final(self)@ == recorded(old(self)@, frame@, size),
    {
        proof {
            use_type_invariant(&*self);
        }
        let key: StatKey = StatKey::of(frame);
        let one: Counter = Counter { packets: 1, bytes: size };
        let mut cur: StatsMap = StatsMap::new();
        let mut session: StatsMap = StatsMap::new();
        std::mem::swap(&mut self.cur, &mut cur);
        std::mem::swap(&mut self.session, &mut session);
        assert(counts::addable(counts::tally_of(cur@, frame.proto, key@), one));
        session.add(frame.proto, key.clone(), one);
        cur.add(frame.proto, key, one);
        self.session = session;
        self.cur = cur;
        self.packets += 1;
        self.bytes += size;
    }

    /// Close the current window and promote it to the displayed one.
    ///
    /// Rates divide by whichever is longer: the wall-clock window, or the
    /// stretch of capture time the frames themselves cover. Those differ
    /// whenever a backend delivers frames in bursts rather than as they were
    /// captured, which is exactly what a `dumpcap` pipe does. Ten seconds of
    /// buffered traffic arriving in one read would otherwise be divided by a
    /// one-second window and reported at ten times the real load. Taking the
    /// longer of the two also keeps a sparse window honest: two frames a
    /// millisecond apart are a trickle over that second, not a burst measured
    /// over a millisecond.
    pub fn rotate(&mut self, now: u64)
        ensures
            final(self)@ == rotated(old(self)@, now),
            actives_distinct(final(self)@.last_active),
    {
        proof {
            use_type_invariant(&*self);
        }
        let wall: u128 = since(self.win_start, now) as u128;
        let spanned: u128 = match self.cur_span.nanos() {
            Some(n) => n,
            None => 0,
        };
        self.win_ns = longest(longest(wall, spanned), MIN_WINDOW_NS);
        self.win_start = now;
        self.cur_span = TimeSpan::default();
        let mut closed_window: StatsMap = StatsMap::new();
        std::mem::swap(&mut self.cur, &mut closed_window);
        let mut active: Vec<(Protocol, KeyMap, u64)> = Vec::new();
        std::mem::swap(&mut self.last_active, &mut active);
        refresh(&mut active, &closed_window, now);
        self.last_active = active;
        self.disp = closed_window;
    }

    /// A consistent view of the last completed window, for rendering.
    pub fn snapshot(&self, now: u64) -> (r: Snapshot)
        ensures
            r.stats@ == self@.disp,
            timed_view(r.idle@) == idle_rows(self@.last_active, self@.disp, now),
            actives_distinct(timed_view(r.idle@)),
            r.window_ns == self@.win_ns,
            r.packets == self@.packets,
            r.bytes == self@.bytes,
            r.uptime_secs == elapsed(self@.started, now) / NS_PER_SEC,
            !r.is_session_total,
    {
        proof {
            use_type_invariant(self);
            lemma_idle_distinct(self@.last_active, self@.disp, now);
        }
        Snapshot {
            stats: self.disp.clone(),
            idle: idle_of(&self.last_active, &self.disp, now),
            window_ns: self.win_ns,
            packets: self.packets,
            bytes: self.bytes,
            uptime_secs: self.uptime_secs(now),
            is_session_total: false,
        }
    }

    /// A view of the whole run, used for the final render once capture ends.
    /// Rates over the session are computed against its full duration.
    pub fn session_snapshot(&self, now: u64) -> (r: Snapshot)
        ensures
            r.stats@ == self@.session,
            r.idle@.len() == 0,
            r.window_ns == longer(elapsed(self@.started, now) as u128, MIN_WINDOW_NS),
            r.packets == self@.packets,
            r.bytes == self@.bytes,
            r.uptime_secs == elapsed(self@.started, now) / NS_PER_SEC,
            r.is_session_total,
    {
        Snapshot {
            stats: self.session.clone(),
            idle: Vec::new(),
            window_ns: longest(since(self.started, now) as u128, MIN_WINDOW_NS),
            packets: self.packets,
            bytes: self.bytes,
            uptime_secs: self.uptime_secs(now),
            is_session_total: true,
        }
    }

    pub fn totals(&self) -> (r: (u64, u64))
        ensures
            r == (self@.packets, self@.bytes),
    {
        (self.packets, self.bytes)
    }

    /// Whole seconds since the engine was made.
    pub fn uptime_secs(&self, now: u64) -> (r: u64)
        ensures
            r == elapsed(self@.started, now) / NS_PER_SEC,
    {
        since(self.started, now) / NS_PER_SEC
    }

    /// Replace all counters with an already-computed map, as produced by an
    /// offline file load.
    pub fn set_offline(&mut self, stats: StatsMap, duration_ns: u128, packets: u64, bytes: u64)
        ensures
            final(self)@ == (StatsView {
                cur: Seq::empty(),
                disp: stats@,
                session: stats@,
                last_active: Seq::empty(),
                win_ns: longer(duration_ns, MIN_WINDOW_NS),
                packets,
                bytes,
                ..old(self)@
            }),
    {
        proof {
            use_type_invariant(&*self);
        }
        self.cur = StatsMap::new();
        self.disp = stats.clone();
        self.session = stats;
        self.last_active = Vec::new();
        assert(timed_view(self.last_active@) =~= Seq::empty());
        self.win_ns = longest(duration_ns, MIN_WINDOW_NS);
        self.packets = packets;
        self.bytes = bytes;
    }
}

/// Note every protocol with rows in a closed window as active at `t`.
fn refresh(active: &mut Vec<(Protocol, KeyMap, u64)>, disp: &StatsMap, t: u64)
    requires
        actives_distinct(timed_view(old(active)@)),
    ensures
        timed_view(final(active)@) == refreshed(timed_view(old(active)@), disp@, t),
        actives_distinct(timed_view(final(active)@)),
{
    let protocols: &Vec<(Protocol, KeyMap)> = disp.protocols();
    let ghost before = timed_view(active@);
    let mut i: usize = 0;
    assert(refreshed(before, disp@.take(0), t) == before);
    while i < protocols.len()
        invariant
            i <= protocols@.len(),
            counts::protocols_view(protocols@) == disp@,
            timed_view(active@) == refreshed(before, disp@.take(i as int), t),
            actives_distinct(timed_view(active@)),
        decreases protocols@.len() - i,
    {
        proof {
            let next = disp@.take(i + 1);
            assert(next.drop_last() =~= disp@.take(i as int));
            assert(next.last() == (protocols@[i as int].0, protocols@[i as int].1@));
        }
        if !protocols[i].1.is_empty() {
            note(active, protocols[i].0, protocols[i].1.clone(), t);
        }
        i += 1;
    }
    assert(disp@.take(i as int) =~= disp@);
}

fn note(active: &mut Vec<(Protocol, KeyMap, u64)>, p: Protocol, rows: KeyMap, t: u64)
    requires
        actives_distinct(timed_view(old(active)@)),
    ensures
        timed_view(final(active)@) == noted(timed_view(old(active)@), p, rows@, t),
        actives_distinct(timed_view(final(active)@)),
{
    let ghost before = timed_view(active@);
    let ghost after = noted(before, p, rows@, t);
    let n: usize = active.len();
    let mut i: usize = 0;
    while i < n && active[i].0 != p
        invariant
            i <= n == active@.len(),
            before == timed_view(active@),
            forall|j: int| 0 <= j < i ==> !#[trigger] active_at(before, p, j),
        decreases n - i,
    {
        i += 1;
    }
    if i < n {
        proof {
            let k = choose|k: int| active_at(before, p, k);
            assert(active_at(before, p, i as int));
            assert(active_at(before, p, k));
            if k != i {
                assert(before[k].0 != before[i as int].0);
            }
        }
        active[i] = (p, rows, t);
        assert(timed_view(active@) =~= after);
    } else {
        proof {
            assert(!was_active(before, p));
            assert forall|j: int| 0 <= j < before.len() implies (#[trigger] before[j]).0 != p by {
                assert(!active_at(before, p, j));
            }
        }
        active.push((p, rows, t));
        assert(timed_view(active@) =~= after);
    }
}

/// Protocols that carried traffic recently but not in the current window.
fn idle_of(active: &Vec<(Protocol, KeyMap, u64)>, disp: &StatsMap, now: u64) -> (r: Vec<
    (Protocol, KeyMap, u64),
>)
    ensures
        timed_view(r@) == idle_rows(timed_view(active@), disp@, now),
{
    let ghost las = timed_view(active@);
    let mut out: Vec<(Protocol, KeyMap, u64)> = Vec::new();
    let mut i: usize = 0;
    assert(timed_view(out@) =~= idle_rows(las.take(0), disp@, now));
    while i < active.len()
        invariant
            i <= active@.len(),
            las == timed_view(active@),
            timed_view(out@) == idle_rows(las.take(i as int), disp@, now),
        decreases active@.len() - i,
    {
        let p: Protocol = active[i].0;
        let silent: bool = match disp.get(p) {
            Some(rows) => rows.is_empty(),
            None => true,
        };
        proof {
            let next = las.take(i + 1);
            assert(next.drop_last() =~= las.take(i as int));
            assert(next.last() == (p, active@[i as int].1@, active@[i as int].2));
        }
        if silent {
            let ghost before = timed_view(out@);
            let idle: (Protocol, KeyMap, u64) = (p, active[i].1.clone(), since(active[i].2, now));
            out.push(idle);
            assert(timed_view(out@) =~= before.push((idle.0, idle.1@, idle.2)));
        }
        i += 1;
    }
    assert(las.take(i as int) =~= las);
    out
}

// ---- Laws ----------------------------------------------------------------------------------

/// Recording counts the frame under its own key and no other, in the totals and
/// once, and leaves the displayed window as it is.
pub proof fn law_recording_counts_one_frame(s: StatsView, frame: parse::FrameView, size: u64)
    requires
        counts::valid_stats(s.session),
        counts::addable(
            counts::tally_of(s.session, frame.proto, counts::key_of(frame)),
            counts::packet(size),
        ),
        s.packets < u64::MAX,
        s.bytes + size <= u64::MAX,
    ensures
        recorded(s, frame, size).packets == s.packets + 1,
        recorded(s, frame, size).bytes == s.bytes + size,
        recorded(s, frame, size).disp == s.disp,
        balanced(s) ==> balanced(recorded(s, frame, size)),
        forall|p: Protocol, k: counts::StatKeyView| #[trigger]
            counts::tally_of(recorded(s, frame, size).session, p, k) == (if p == frame.proto && k
                == counts::key_of(frame) {
                counts::plus(counts::tally_of(s.session, p, k), counts::packet(size))
            } else {
                counts::tally_of(s.session, p, k)
            }),
{
    counts::lemma_counted(s.session, frame.proto, counts::key_of(frame), counts::packet(size));
}

/// Merging a batch adds its totals to the totals and its tallies to the
/// session's, and leaves the displayed window as it is.
pub proof fn law_merging_adds_a_batch(
    s: StatsView,
    stats: Seq<(Protocol, Seq<(counts::StatKeyView, Counter)>)>,
    packets: u64,
    bytes: u64,
    span: TimeSpan,
)
    requires
        counts::valid_stats(s.session),
        counts::valid_stats(stats),
        counts::all_addable(s.session, stats),
        s.packets + packets <= u64::MAX,
        s.bytes + bytes <= u64::MAX,
    ensures
        ({
            let m = batch_merged(s, stats, packets, bytes, span);
            &&& m.packets == s.packets + packets
            &&& m.bytes == s.bytes + bytes
            &&& m.disp == s.disp
            &&& forall|p: Protocol, k: counts::StatKeyView| #[trigger]
                counts::tally_of(m.session, p, k) == counts::plus(
                    counts::tally_of(s.session, p, k),
                    counts::tally_of(stats, p, k),
                )
        }),
{
    counts::lemma_merged(s.session, stats);
}

/// Merging a batch whose totals are those of its rows keeps the totals
/// balanced.
pub proof fn law_merging_keeps_the_balance(
    s: StatsView,
    stats: Seq<(Protocol, Seq<(counts::StatKeyView, Counter)>)>,
    packets: u64,
    bytes: u64,
    span: TimeSpan,
)
    requires
        counts::valid_stats(s.session),
        counts::valid_stats(stats),
        packets == counts::packets_over(stats),
        bytes == counts::bytes_over(stats),
        s.packets + packets <= u64::MAX,
        s.bytes + bytes <= u64::MAX,
        balanced(s),
    ensures
        balanced(batch_merged(s, stats, packets, bytes, span)),
{
    counts::lemma_all_addable(s.session, stats);
    counts::lemma_merged(s.session, stats);
}

/// A fresh engine is balanced, and rotating one changes neither its session
/// nor its totals: nothing is lost or counted twice between windows.
pub proof fn law_rotation_keeps_the_session(s: StatsView, now: u64)
    ensures
        balanced(fresh(now)),
        rotated(s, now).session == s.session,
        rotated(s, now).packets == s.packets,
        rotated(s, now).bytes == s.bytes,
        rotated(s, now).disp == s.cur,
        rotated(s, now).cur.len() == 0,
        balanced(s) ==> balanced(rotated(s, now)),
{
}

/// Where there is room for all that a batch counts, every row of it fits.
pub proof fn law_room_is_enough(
    s: StatsView,
    stats: Seq<(Protocol, Seq<(counts::StatKeyView, Counter)>)>,
)
    requires
        room_for(s, counts::packets_over(stats), counts::bytes_over(stats)),
    ensures
        counts::all_addable(s.session, stats),
{
    counts::lemma_all_addable(s.session, stats);
}

/// A balanced engine has room for whatever its totals have room for.
pub proof fn law_balanced_totals_tell_the_room(s: StatsView, packets: nat, bytes: nat)
    requires
        balanced(s),
        s.packets + packets <= u64::MAX,
        s.bytes + bytes <= u64::MAX,
    ensures
        room_for(s, packets, bytes),
{
}

/// One frame to be counted: what it is, and its size.
pub ghost struct Sighting {
    pub frame: parse::FrameView,
    pub size: u64,
}

/// The statistics after counting frames one by one.
pub open spec fn counted_all(
    ps: Seq<(Protocol, Seq<(counts::StatKeyView, Counter)>)>,
    frames: Seq<Sighting>,
) -> Seq<(Protocol, Seq<(counts::StatKeyView, Counter)>)>
    decreases frames.len(),
{
    if frames.len() == 0 {
        ps
    } else {
        let last = frames.last();
        counts::counted(
            counted_all(ps, frames.drop_last()),
            last.frame.proto,
            counts::key_of(last.frame),
            counts::packet(last.size),
        )
    }
}

/// The bytes of all frames.
pub open spec fn size_of_all(frames: Seq<Sighting>) -> nat
    decreases frames.len(),
{
    if frames.len() == 0 {
        0
    } else {
        size_of_all(frames.drop_last()) + frames.last().size as nat
    }
}

pub proof fn lemma_counted_all(
    ps: Seq<(Protocol, Seq<(counts::StatKeyView, Counter)>)>,
    frames: Seq<Sighting>,
)
    requires
        counts::valid_stats(ps),
        counts::packets_over(ps) + frames.len() <= u64::MAX,
        counts::bytes_over(ps) + size_of_all(frames) <= u64::MAX,
    ensures
        counts::valid_stats(counted_all(ps, frames)),
        counts::packets_over(counted_all(ps, frames)) == counts::packets_over(ps) + frames.len(),
        counts::bytes_over(counted_all(ps, frames)) == counts::bytes_over(ps) + size_of_all(frames),
    decreases frames.len(),
{
    if frames.len() > 0 {
        let front = counted_all(ps, frames.drop_last());
        let last = frames.last();
        let k = counts::key_of(last.frame);
        lemma_counted_all(ps, frames.drop_last());
        counts::lemma_tally_of_within(front, last.frame.proto, k);
        counts::lemma_counted(front, last.frame.proto, k, counts::packet(last.size));
    }
}

/// Batching changes nothing: aggregating frames first and merging the batch
/// counts for every row what recording them one by one counts.
pub proof fn law_batching_equals_recording(
    ps: Seq<(Protocol, Seq<(counts::StatKeyView, Counter)>)>,
    frames: Seq<Sighting>,
    p: Protocol,
    k: counts::StatKeyView,
)
    requires
        counts::valid_stats(ps),
        counts::packets_over(ps) + frames.len() <= u64::MAX,
        counts::bytes_over(ps) + size_of_all(frames) <= u64::MAX,
    ensures
        counts::tally_of(counts::merged(ps, counted_all(Seq::empty(), frames)), p, k)
            == counts::tally_of(counted_all(ps, frames), p, k),
    decreases frames.len(),
{
    let none = Seq::<(Protocol, Seq<(counts::StatKeyView, Counter)>)>::empty();
    let batch = counted_all(none, frames);
    lemma_counted_all(none, frames);
    counts::lemma_all_addable(ps, batch);
    counts::lemma_merged(ps, batch);
    if frames.len() == 0 {
        assert(counts::merged(ps, batch) == ps);
    } else {
        let earlier = frames.drop_last();
        let last = frames.last();
        let q = last.frame.proto;
        let j = counts::key_of(last.frame);
        let one = counts::packet(last.size);
        law_batching_equals_recording(ps, earlier, p, k);
        lemma_counted_all(none, earlier);
        lemma_counted_all(ps, earlier);
        counts::lemma_all_addable(ps, counted_all(none, earlier));
        counts::lemma_merged(ps, counted_all(none, earlier));
        counts::lemma_tally_of_within(counted_all(none, earlier), q, j);
        counts::lemma_tally_of_within(counted_all(ps, earlier), q, j);
        counts::lemma_counted(counted_all(none, earlier), q, j, one);
        counts::lemma_counted(counted_all(ps, earlier), q, j, one);
        counts::lemma_tally_of_within(ps, p, k);
    }
}

/// A window's rows are noted for every protocol active in it, and kept for
/// every other.
pub proof fn lemma_refreshed(
    las: Seq<(Protocol, Seq<(counts::StatKeyView, Counter)>, u64)>,
    disp: Seq<(Protocol, Seq<(counts::StatKeyView, Counter)>)>,
    t: u64,
    p: Protocol,
)
    requires
        actives_distinct(las),
        counts::protocols_distinct(disp),
    ensures
        actives_distinct(refreshed(las, disp, t)),
        counts::rows_of(disp, p).len() > 0 ==> refreshed(las, disp, t).contains(
            (p, counts::rows_of(disp, p), t),
        ),
        counts::rows_of(disp, p).len() == 0 ==> forall|e: (
            Protocol,
            Seq<(counts::StatKeyView, Counter)>,
            u64,
        )|
            e.0 == p && #[trigger] las.contains(e) ==> refreshed(las, disp, t).contains(e),
    decreases disp.len(),
{
    if disp.len() == 0 {
        if counts::has_protocol(disp, p) {
            assert(counts::protocol_at(disp, p, counts::protocol_of(disp, p)));
        }
    } else {
        let early = disp.drop_last();
        let front = refreshed(las, early, t);
        let (q, rows) = disp.last();
        lemma_refreshed(las, early, t, p);
        assert(counts::protocol_at(disp, q, disp.len() - 1));
        counts::lemma_protocol_of(disp, q, disp.len() - 1);
        if counts::has_protocol(early, q) {
            let i = counts::protocol_of(early, q);
            assert(counts::protocol_at(early, q, i));
            assert(disp[i].0 != disp[disp.len() - 1].0);
        }
        if p != q {
            if counts::has_protocol(early, p) {
                let i = counts::protocol_of(early, p);
                assert(counts::protocol_at(early, p, i));
                assert(counts::protocol_at(disp, p, i));
                counts::lemma_protocol_of(disp, p, i);
            } else if counts::has_protocol(disp, p) {
                let i = counts::protocol_of(disp, p);
                assert(counts::protocol_at(disp, p, i));
                assert(counts::protocol_at(early, p, i));
            }
        }
        if rows.len() > 0 {
            lemma_noted(front, q, rows, t);
            if p == q {
                assert(noted(front, q, rows, t).contains((q, rows, t)));
            } else {
                if counts::rows_of(disp, p).len() > 0 {
                    assert(front.contains((p, counts::rows_of(disp, p), t)));
                } else {
                    assert forall|e: (Protocol, Seq<(counts::StatKeyView, Counter)>, u64)|
                        e.0 == p && #[trigger] las.contains(e) implies noted(
                        front,
                        q,
                        rows,
                        t,
                    ).contains(e) by {
                        assert(front.contains(e));
                    }
                }
            }
        }
    }
}

proof fn lemma_noted(
    las: Seq<(Protocol, Seq<(counts::StatKeyView, Counter)>, u64)>,
    p: Protocol,
    rows: Seq<(counts::StatKeyView, Counter)>,
    t: u64,
)
    requires
        actives_distinct(las),
    ensures
        actives_distinct(noted(las, p, rows, t)),
        noted(las, p, rows, t).contains((p, rows, t)),
        forall|e: (Protocol, Seq<(counts::StatKeyView, Counter)>, u64)|
            e.0 != p && #[trigger] las.contains(e) ==> noted(las, p, rows, t).contains(e),
{
    let n = noted(las, p, rows, t);
    let i = if was_active(las, p) {
        choose|i: int| active_at(las, p, i)
    } else {
        las.len() as int
    };
    if was_active(las, p) {
        assert(active_at(las, p, i));
    } else {
        assert forall|j: int| 0 <= j < las.len() implies (#[trigger] las[j]).0 != p by {
            if las[j].0 == p {
                assert(active_at(las, p, j));
            }
        }
    }
    assert(n[i] == (p, rows, t));
    assert forall|e: (Protocol, Seq<(counts::StatKeyView, Counter)>, u64)|
        e.0 != p && #[trigger] las.contains(e) implies n.contains(e) by {
        let j = las.index_of(e);
        assert(n[j] == e);
    }
}

proof fn lemma_idle_contains(
    las: Seq<(Protocol, Seq<(counts::StatKeyView, Counter)>, u64)>,
    disp: Seq<(Protocol, Seq<(counts::StatKeyView, Counter)>)>,
    now: u64,
    e: (Protocol, Seq<(counts::StatKeyView, Counter)>, u64),
)
    requires
        las.contains(e),
        counts::rows_of(disp, e.0).len() == 0,
    ensures
        idle_rows(las, disp, now).contains((e.0, e.1, elapsed(e.2, now))),
    decreases las.len(),
{
    let i = las.index_of(e);
    let all = idle_rows(las, disp, now);
    let front = idle_rows(las.drop_last(), disp, now);
    if i == las.len() - 1 {
        assert(all[front.len() as int] == (e.0, e.1, elapsed(e.2, now)));
    } else {
        assert(las.drop_last()[i] == e);
        lemma_idle_contains(las.drop_last(), disp, now, e);
        let j = front.index_of((e.0, e.1, elapsed(e.2, now)));
        assert(all[j] == (e.0, e.1, elapsed(e.2, now)));
    }
}

/// Only what was active turns idle, and no protocol twice.
proof fn lemma_idle_distinct(
    las: Seq<(Protocol, Seq<(counts::StatKeyView, Counter)>, u64)>,
    disp: Seq<(Protocol, Seq<(counts::StatKeyView, Counter)>)>,
    now: u64,
)
    requires
        actives_distinct(las),
    ensures
        actives_distinct(idle_rows(las, disp, now)),
        forall|i: int|
            0 <= i < idle_rows(las, disp, now).len() ==> was_active(
                las,
                (#[trigger] idle_rows(las, disp, now)[i]).0,
            ),
    decreases las.len(),
{
    if las.len() > 0 {
        let early = las.drop_last();
        let front = idle_rows(early, disp, now);
        let all = idle_rows(las, disp, now);
        lemma_idle_distinct(early, disp, now);
        assert forall|i: int| 0 <= i < front.len() implies was_active(las, (#[trigger] front[i]).0)
            && front[i].0 != las.last().0 by {
            let j = choose|j: int| active_at(early, front[i].0, j);
            assert(active_at(early, front[i].0, j));
            assert(active_at(las, front[i].0, j));
            assert(las[j].0 != las[las.len() - 1].0);
        }
        assert forall|i: int| 0 <= i < all.len() implies was_active(las, (#[trigger] all[i]).0) by {
            if i < front.len() {
                assert(all[i] == front[i]);
            } else {
                assert(active_at(las, all[i].0, las.len() - 1));
            }
        }
    }
}

/// Whether an entry stands in a list exactly once, and none else of its
/// protocol.
pub open spec fn only_entry(
    es: Seq<(Protocol, Seq<(counts::StatKeyView, Counter)>, u64)>,
    e: (Protocol, Seq<(counts::StatKeyView, Counter)>, u64),
) -> bool {
    &&& es.contains(e)
    &&& forall|i: int, j: int|
        #![trigger es[i], es[j]]
        0 <= i < es.len() && 0 <= j < es.len() && es[i].0 == e.0 && es[j].0 == e.0 ==> i == j
}

/// A protocol active in one window and silent in the next stays visible: it is
/// reported idle exactly once, with its last rows and the time since that
/// window closed.
pub proof fn law_active_protocols_turn_idle(
    s: StatsView,
    p: Protocol,
    t: u64,
    later: u64,
    now: u64,
)
    requires
        actives_distinct(s.last_active),
        counts::protocols_distinct(s.cur),
        counts::rows_of(s.cur, p).len() > 0,
    ensures
        ({
            let closed_at = rotated(s, t);
            let silent = rotated(closed_at, later);
            only_entry(
                idle_rows(silent.last_active, silent.disp, now),
                (p, counts::rows_of(s.cur, p), elapsed(t, now)),
            )
        }),
{
    let closed_at = rotated(s, t);
    let silent = rotated(closed_at, later);
    lemma_refreshed(s.last_active, s.cur, t, p);
    assert(silent.last_active == closed_at.last_active);
    assert(counts::rows_of(silent.disp, p).len() == 0) by {
        if counts::has_protocol(silent.disp, p) {
            assert(counts::protocol_at(
                silent.disp,
                p,
                counts::protocol_of(silent.disp, p),
            ));
        }
    }
    lemma_idle_contains(
        silent.last_active,
        silent.disp,
        now,
        (p, counts::rows_of(s.cur, p), t),
    );
    lemma_idle_distinct(silent.last_active, silent.disp, now);
}

/// What an engine takes in.
pub ghost enum Intake {
    Frame { frame: parse::FrameView, size: u64 },
    Merged {
        stats: Seq<(Protocol, Seq<(counts::StatKeyView, Counter)>)>,
        packets: u64,
        bytes: u64,
        span: TimeSpan,
    },
}

/// What an intake counts for a protocol under a key.
pub open spec fn intake_tally(e: Intake, p: Protocol, k: counts::StatKeyView) -> Counter {
    match e {
        Intake::Frame { frame, size } => if p == frame.proto && k == counts::key_of(frame) {
            counts::packet(size)
        } else {
            counts::zero()
        },
        Intake::Merged { stats, .. } => counts::tally_of(stats, p, k),
    }
}

/// All packets that intakes count for a protocol under a key.
pub open spec fn packets_for(es: Seq<Intake>, p: Protocol, k: counts::StatKeyView) -> nat
    decreases es.len(),
{
    if es.len() == 0 {
        0
    } else {
        packets_for(es.drop_last(), p, k) + intake_tally(es.last(), p, k).packets as nat
    }
}

/// All bytes that intakes count for a protocol under a key.
pub open spec fn bytes_for(es: Seq<Intake>, p: Protocol, k: counts::StatKeyView) -> nat
    decreases es.len(),
{
    if es.len() == 0 {
        0
    } else {
        bytes_for(es.drop_last(), p, k) + intake_tally(es.last(), p, k).bytes as nat
    }
}

/// The engine after intakes one after another.
pub open spec fn taken_in(s: StatsView, es: Seq<Intake>) -> StatsView
    decreases es.len(),
{
    if es.len() == 0 {
        s
    } else {
        let before = taken_in(s, es.drop_last());
        match es.last() {
            Intake::Frame { frame, size } => recorded(before, frame, size),
            Intake::Merged { stats, packets, bytes, span } => batch_merged(
                before,
                stats,
                packets,
                bytes,
                span,
            ),
        }
    }
}

/// Whether no row of the intakes counts more than a counter holds, and no batch
/// among them has two rows for one key.
pub open spec fn countable(es: Seq<Intake>) -> bool {
    &&& forall|p: Protocol, k: counts::StatKeyView|
        (#[trigger] packets_for(es, p, k)) <= u64::MAX && bytes_for(es, p, k) <= u64::MAX
    &&& forall|i: int|
        0 <= i < es.len() ==> ((#[trigger] es[i]) matches Intake::Merged { stats, .. }
            ==> counts::valid_stats(stats))
}

proof fn lemma_taken_in(s: StatsView, es: Seq<Intake>)
    requires
        s.cur.len() == 0,
        countable(es),
    ensures
        counts::valid_stats(taken_in(s, es).cur),
        forall|p: Protocol, k: counts::StatKeyView|
            {
                let c = #[trigger] counts::tally_of(taken_in(s, es).cur, p, k);
                c.packets == packets_for(es, p, k) && c.bytes == bytes_for(es, p, k)
            },
        taken_in(s, es).last_active == s.last_active,
    decreases es.len(),
{
    if es.len() == 0 {
        assert forall|p: Protocol, k: counts::StatKeyView| #[trigger]
            counts::tally_of(s.cur, p, k) == counts::zero() by {
            if counts::has_protocol(s.cur, p) {
                assert(counts::protocol_at(s.cur, p, counts::protocol_of(s.cur, p)));
            }
            let rows = counts::rows_of(s.cur, p);
            if counts::has_row(rows, k) {
                assert(counts::row_at(rows, k, counts::row_of(rows, k)));
            }
        }
    } else {
        let front = es.drop_last();
        let before = taken_in(s, front);
        assert(countable(front)) by {
            assert forall|p: Protocol, k: counts::StatKeyView|
                (#[trigger] packets_for(front, p, k)) <= u64::MAX && bytes_for(front, p, k)
                    <= u64::MAX by {
                assert(packets_for(es, p, k) <= u64::MAX);
            }
            assert forall|i: int| 0 <= i < front.len() implies ((
            #[trigger] front[i]) matches Intake::Merged { stats, .. } ==> counts::valid_stats(
                stats,
            )) by {
                assert(front[i] == es[i]);
            }
        }
        lemma_taken_in(s, front);
        assert(es[es.len() - 1] == es.last());
        match es.last() {
            Intake::Frame { frame, size } => {
                let k = counts::key_of(frame);
                assert(packets_for(es, frame.proto, k) <= u64::MAX);
                assert(counts::tally_of(before.cur, frame.proto, k).packets == packets_for(
                    front,
                    frame.proto,
                    k,
                ));
                counts::lemma_counted(before.cur, frame.proto, k, counts::packet(size));
            },
            Intake::Merged { stats, .. } => {
                assert forall|p: Protocol, k: counts::StatKeyView|
                    counts::addable(
                        #[trigger] counts::tally_of(before.cur, p, k),
                        counts::tally_of(stats, p, k),
                    ) by {
                    assert(packets_for(es, p, k) <= u64::MAX);
                }
                counts::lemma_merged(before.cur, stats);
            },
        }
        let now = taken_in(s, es);
        assert forall|p: Protocol, k: counts::StatKeyView|
            {
                let c = #[trigger] counts::tally_of(now.cur, p, k);
                c.packets == packets_for(es, p, k) && c.bytes == bytes_for(es, p, k)
            } by {
            assert(counts::tally_of(before.cur, p, k).packets == packets_for(front, p, k));
            assert(packets_for(es, p, k) <= u64::MAX);
            assert(counts::tally_of(now.cur, p, k) == counts::plus(
                counts::tally_of(before.cur, p, k),
                intake_tally(es.last(), p, k),
            ));
        }
    }
}

/// Closing a window shows exactly what was recorded and merged since the window
/// before it closed, and changes neither session nor totals. When the window
/// after it stays empty, nothing is displayed but every protocol of the first
/// window is idle, once, with its rows.
pub proof fn law_a_window_shows_what_came_in(
    s: StatsView,
    es: Seq<Intake>,
    t: u64,
    later: u64,
    now: u64,
)
    requires
        s.cur.len() == 0,
        countable(es),
        actives_distinct(s.last_active),
    ensures
        ({
            let full = taken_in(s, es);
            let shown = rotated(full, t);
            &&& forall|p: Protocol, k: counts::StatKeyView|
                {
                    let c = #[trigger] counts::tally_of(shown.disp, p, k);
                    c.packets == packets_for(es, p, k) && c.bytes == bytes_for(es, p, k)
                }
            &&& shown.win_ns >= MIN_WINDOW_NS
            &&& shown.session == full.session
            &&& shown.packets == full.packets
            &&& shown.bytes == full.bytes
            &&& shown.cur.len() == 0
        }),
        ({
            let shown = rotated(taken_in(s, es), t);
            let silent = rotated(shown, later);
            &&& silent.disp.len() == 0
            &&& forall|p: Protocol|
                (#[trigger] counts::rows_of(shown.disp, p)).len() > 0 ==> only_entry(
                    idle_rows(silent.last_active, silent.disp, now),
                    (p, counts::rows_of(shown.disp, p), elapsed(t, now)),
                )
        }),
{
    let full = taken_in(s, es);
    lemma_taken_in(s, es);
    let shown = rotated(full, t);
    let silent = rotated(shown, later);
    assert forall|p: Protocol|
        (#[trigger] counts::rows_of(shown.disp, p)).len() > 0 implies only_entry(
        idle_rows(silent.last_active, silent.disp, now),
        (p, counts::rows_of(shown.disp, p), elapsed(t, now)),
    ) by {
        law_active_protocols_turn_idle(full, p, t, later, now);
    }
}

/// A window is never shorter than the clock's window, than the capture time
/// its frames cover, or than the minimum, and is one of the three.
pub proof fn law_window_length(start: u64, span: TimeSpan, now: u64)
    ensures
        ({
            let w = window_length(start, span, now);
            &&& w >= elapsed(start, now) && w >= covered(span) && w >= MIN_WINDOW_NS
            &&& w == elapsed(start, now) || w == covered(span) || w == MIN_WINDOW_NS
        }),
{
}

} // verus!
