//! What reaches the statistics through a sink.
use crate::capture;
use crate::classify;
use crate::counts;
use crate::counts::Counter;
use crate::filter;
use crate::load;
use crate::parse::Protocol;
use crate::stats;
use vstd::prelude::*;

verus! {

/// What a capture tells a sink.
pub ghost enum SinkEvent {
    Frame { data: Seq<u8>, wire_len: u64, ts: Option<u128>, now: u64 },
    Idle { now: u64 },
}

/// A sink, and the batches it has handed over.
pub ghost struct SinkRun {
    pub sink: capture::SinkView,
    pub batches: Seq<stats::BatchAccumView>,
}

/// A sink that hands over all it holds.
pub open spec fn handed_over(r: SinkRun, now: u64) -> SinkRun {
    if r.sink.batch.packets == 0 {
        r
    } else {
        SinkRun {
            sink: capture::SinkView { batch: capture::opened(r.sink.batch, now), ..r.sink },
            batches: r.batches.push(r.sink.batch),
        }
    }
}

/// A sink after one event.
pub open spec fn sink_step(r: SinkRun, e: SinkEvent) -> SinkRun {
    match e {
        SinkEvent::Frame { data, wire_len, ts, now } => if load::passes(r.sink.filter, data) {
            let b = stats::batch_with(r.sink.batch, classify::classified(data), wire_len, ts);
            let next = SinkRun { sink: capture::SinkView { batch: b, ..r.sink }, ..r };
            if stats::batch_full(b, now) {
                handed_over(next, now)
            } else {
                next
            }
        } else {
            r
        },
        SinkEvent::Idle { now } => handed_over(r, now),
    }
}

/// A sink after events one after another.
pub open spec fn sink_run(start: capture::SinkView, events: Seq<SinkEvent>) -> SinkRun
    decreases events.len(),
{
    if events.len() == 0 {
        SinkRun { sink: start, batches: Seq::empty() }
    } else {
        sink_step(sink_run(start, events.drop_last()), events.last())
    }
}

/// The frames among the events that a filter lets through.
pub open spec fn let_through(f: filter::FrameFilterView, events: Seq<SinkEvent>) -> Seq<
    stats::Sighting,
>
    decreases events.len(),
{
    if events.len() == 0 {
        Seq::empty()
    } else {
        let front = let_through(f, events.drop_last());
        match events.last() {
            SinkEvent::Frame { data, wire_len, .. } => if load::passes(f, data) {
                front.push(
                    stats::Sighting { frame: classify::classified(data), size: wire_len },
                )
            } else {
                front
            },
            SinkEvent::Idle { .. } => front,
        }
    }
}

/// The statistics after merging batches one after another.
pub open spec fn merged_all(
    ps: Seq<(Protocol, Seq<(counts::StatKeyView, Counter)>)>,
    batches: Seq<stats::BatchAccumView>,
) -> Seq<(Protocol, Seq<(counts::StatKeyView, Counter)>)>
    decreases batches.len(),
{
    if batches.len() == 0 {
        ps
    } else {
        counts::merged(merged_all(ps, batches.drop_last()), batches.last().stats)
    }
}

proof fn lemma_counted_concat(
    ps: Seq<(Protocol, Seq<(counts::StatKeyView, Counter)>)>,
    a: Seq<stats::Sighting>,
    b: Seq<stats::Sighting>,
)
    ensures
        stats::counted_all(ps, a + b) == stats::counted_all(stats::counted_all(ps, a), b),
        stats::size_of_all(a + b) == stats::size_of_all(a) + stats::size_of_all(b),
    decreases b.len(),
{
    if b.len() == 0 {
        assert(a + b =~= a);
    } else {
        lemma_counted_concat(ps, a, b.drop_last());
        assert((a + b).drop_last() =~= a + b.drop_last());
    }
}

/// Whether two statistics count the same for every row.
pub open spec fn same_tallies(
    a: Seq<(Protocol, Seq<(counts::StatKeyView, Counter)>)>,
    b: Seq<(Protocol, Seq<(counts::StatKeyView, Counter)>)>,
) -> bool {
    forall|p: Protocol, k: counts::StatKeyView| #[trigger]
        counts::tally_of(a, p, k) == counts::tally_of(b, p, k)
}

/// Counting the same frames on top keeps tallies the same.
proof fn lemma_counted_same(
    a: Seq<(Protocol, Seq<(counts::StatKeyView, Counter)>)>,
    b: Seq<(Protocol, Seq<(counts::StatKeyView, Counter)>)>,
    frames: Seq<stats::Sighting>,
)
    requires
        counts::valid_stats(a),
        counts::valid_stats(b),
        same_tallies(a, b),
        counts::packets_over(a) + frames.len() <= u64::MAX,
        counts::bytes_over(a) + stats::size_of_all(frames) <= u64::MAX,
        counts::packets_over(b) + frames.len() <= u64::MAX,
        counts::bytes_over(b) + stats::size_of_all(frames) <= u64::MAX,
    ensures
        same_tallies(stats::counted_all(a, frames), stats::counted_all(b, frames)),
    decreases frames.len(),
{
    if frames.len() > 0 {
        let front = frames.drop_last();
        let last = frames.last();
        let q = last.frame.proto;
        let j = counts::key_of(last.frame);
        let one = counts::packet(last.size);
        let x = stats::counted_all(a, front);
        let y = stats::counted_all(b, front);
        lemma_counted_same(a, b, front);
        stats::lemma_counted_all(a, front);
        stats::lemma_counted_all(b, front);
        counts::lemma_tally_of_within(x, q, j);
        counts::lemma_tally_of_within(y, q, j);
        counts::lemma_counted(x, q, j, one);
        counts::lemma_counted(y, q, j, one);
    }
}

/// What a run has handed over and what it still holds, seen from the frames
/// that were let through.
pub open spec fn accounts_for(
    run: SinkRun,
    ps: Seq<(Protocol, Seq<(counts::StatKeyView, Counter)>)>,
    done: Seq<stats::Sighting>,
    held: Seq<stats::Sighting>,
) -> bool {
    let m = merged_all(ps, run.batches);
    let b = run.sink.batch;
    &&& counts::valid_stats(m)
    &&& counts::packets_over(m) == counts::packets_over(ps) + done.len()
    &&& counts::bytes_over(m) == counts::bytes_over(ps) + stats::size_of_all(done)
    &&& same_tallies(m, stats::counted_all(ps, done))
    &&& b.stats == stats::counted_all(Seq::empty(), held)
    &&& b.packets == held.len()
    &&& b.bytes == stats::size_of_all(held)
}

proof fn lemma_handed_over(
    run: SinkRun,
    now: u64,
    ps: Seq<(Protocol, Seq<(counts::StatKeyView, Counter)>)>,
    done: Seq<stats::Sighting>,
    held: Seq<stats::Sighting>,
)
    requires
        counts::valid_stats(ps),
        accounts_for(run, ps, done, held),
        counts::packets_over(ps) + done.len() + held.len() <= u64::MAX,
        counts::bytes_over(ps) + stats::size_of_all(done) + stats::size_of_all(held) <= u64::MAX,
    ensures
        accounts_for(handed_over(run, now), ps, done + held, Seq::empty()),
{
    let none = Seq::<(Protocol, Seq<(counts::StatKeyView, Counter)>)>::empty();
    let next = handed_over(run, now);
    if held.len() == 0 {
        assert(done + held =~= done);
        assert(held =~= Seq::empty());
    } else {
        let m = merged_all(ps, run.batches);
        let c = stats::counted_all(ps, done);
        let b = run.sink.batch;
        assert(next.batches.drop_last() =~= run.batches);
        lemma_counted_concat(ps, done, held);
        stats::lemma_counted_all(none, held);
        stats::lemma_counted_all(ps, done);
        counts::lemma_all_addable(m, b.stats);
        counts::lemma_merged(m, b.stats);
        lemma_counted_same(m, c, held);
        assert forall|p: Protocol, k: counts::StatKeyView| #[trigger]
            counts::tally_of(counts::merged(m, b.stats), p, k) == counts::tally_of(
                stats::counted_all(ps, done + held),
                p,
                k,
            ) by {
            stats::law_batching_equals_recording(m, held, p, k);
            assert(counts::tally_of(stats::counted_all(m, held), p, k) == counts::tally_of(
                stats::counted_all(c, held),
                p,
                k,
            ));
        }
        assert(merged_all(ps, next.batches) == counts::merged(m, b.stats));
    }
}

/// Every frame that was let through was either handed over or is still held.
proof fn lemma_sink_run(
    start: capture::SinkView,
    events: Seq<SinkEvent>,
    ps: Seq<(Protocol, Seq<(counts::StatKeyView, Counter)>)>,
) -> (r: (Seq<stats::Sighting>, Seq<stats::Sighting>))
    requires
        start.batch.stats == Seq::<(Protocol, Seq<(counts::StatKeyView, Counter)>)>::empty(),
        start.batch.packets == 0,
        start.batch.bytes == 0,
        counts::valid_stats(ps),
        counts::packets_over(ps) + let_through(start.filter, events).len() <= u64::MAX,
        counts::bytes_over(ps) + stats::size_of_all(let_through(start.filter, events)) <= u64::MAX,
    ensures
        r.0 + r.1 == let_through(start.filter, events),
        accounts_for(sink_run(start, events), ps, r.0, r.1),
        sink_run(start, events).sink.filter == start.filter,
    decreases events.len(),
{
    let all = let_through(start.filter, events);
    let empty = Seq::<stats::Sighting>::empty();
    if events.len() == 0 {
        assert(empty + empty =~= all);
        (empty, empty)
    } else {
        let before = let_through(start.filter, events.drop_last());
        let run = sink_run(start, events.drop_last());
        if all != before {
            assert(all.drop_last() =~= before);
        }
        let (done, held) = lemma_sink_run(start, events.drop_last(), ps);
        lemma_counted_concat(ps, done, held);
        match events.last() {
            SinkEvent::Frame { data, wire_len, ts, now } => {
                if load::passes(start.filter, data) {
                    let s = stats::Sighting { frame: classify::classified(data), size: wire_len };
                    let more = held.push(s);
                    let b = stats::batch_with(
                        run.sink.batch,
                        classify::classified(data),
                        wire_len,
                        ts,
                    );
                    let next = SinkRun { sink: capture::SinkView { batch: b, ..run.sink }, ..run };
                    assert(more.drop_last() =~= held);
                    assert(done + more =~= (done + held).push(s));
                    lemma_counted_concat(ps, done, more);
                    assert(accounts_for(next, ps, done, more));
                    if stats::batch_full(b, now) {
                        lemma_handed_over(next, now, ps, done, more);
                        assert((done + more) + empty =~= done + more);
                        (done + more, empty)
                    } else {
                        (done, more)
                    }
                } else {
                    (done, held)
                }
            },
            SinkEvent::Idle { now } => {
                lemma_handed_over(run, now, ps, done, held);
                assert((done + held) + empty =~= done + held);
                (done + held, empty)
            },
        }
    }
}

/// No frame is lost or counted twice on its way through a sink: once a capture
/// has finished, merging all its batches counts for every row what recording
/// each frame that the filter lets through would have counted, however the
/// frames fell into batches.
pub proof fn law_batches_carry_every_frame(
    start: capture::SinkView,
    events: Seq<SinkEvent>,
    end: u64,
    ps: Seq<(Protocol, Seq<(counts::StatKeyView, Counter)>)>,
    p: Protocol,
    k: counts::StatKeyView,
)
    requires
        start.batch.stats == Seq::<(Protocol, Seq<(counts::StatKeyView, Counter)>)>::empty(),
        start.batch.packets == 0,
        start.batch.bytes == 0,
        counts::valid_stats(ps),
        counts::packets_over(ps) + let_through(start.filter, events).len() <= u64::MAX,
        counts::bytes_over(ps) + stats::size_of_all(let_through(start.filter, events)) <= u64::MAX,
    ensures
        counts::tally_of(
            merged_all(ps, handed_over(sink_run(start, events), end).batches),
            p,
            k,
        ) == counts::tally_of(
            stats::counted_all(ps, let_through(start.filter, events)),
            p,
            k,
        ),
{
    let (done, held) = lemma_sink_run(start, events, ps);
    lemma_counted_concat(ps, done, held);
    lemma_handed_over(sink_run(start, events), end, ps, done, held);
}

/// The engine after merging batches one after another.
pub open spec fn all_merged(
    s: stats::StatsView,
    batches: Seq<stats::BatchAccumView>,
) -> stats::StatsView
    decreases batches.len(),
{
    if batches.len() == 0 {
        s
    } else {
        let b = batches.last();
        stats::batch_merged(all_merged(s, batches.drop_last()), b.stats, b.packets, b.bytes, b.span)
    }
}

/// Whether the totals and what a sink still holds come to so many packets and
/// bytes.
pub open spec fn totals_come_to(
    s: stats::StatsView,
    run: SinkRun,
    packets: nat,
    bytes: nat,
) -> bool {
    let t = all_merged(s, run.batches);
    &&& t.packets + run.sink.batch.packets == s.packets + packets
    &&& t.bytes + run.sink.batch.bytes == s.bytes + bytes
    &&& t.session == merged_all(s.session, run.batches)
    &&& run.sink.batch.packets == 0 ==> run.sink.batch.bytes == 0
}

proof fn lemma_handed_over_totals(
    s: stats::StatsView,
    run: SinkRun,
    now: u64,
    packets: nat,
    bytes: nat,
)
    requires
        totals_come_to(s, run, packets, bytes),
        s.packets + packets <= u64::MAX,
        s.bytes + bytes <= u64::MAX,
    ensures
        totals_come_to(s, handed_over(run, now), packets, bytes),
        handed_over(run, now).sink.batch.packets == 0,
{
    if run.sink.batch.packets > 0 {
        assert(run.batches.push(run.sink.batch).drop_last() =~= run.batches);
    }
}

proof fn lemma_run_totals(s: stats::StatsView, start: capture::SinkView, events: Seq<SinkEvent>)
    requires
        start.batch.packets == 0,
        start.batch.bytes == 0,
        s.packets + let_through(start.filter, events).len() <= u64::MAX,
        s.bytes + stats::size_of_all(let_through(start.filter, events)) <= u64::MAX,
    ensures
        totals_come_to(
            s,
            sink_run(start, events),
            let_through(start.filter, events).len(),
            stats::size_of_all(let_through(start.filter, events)),
        ),
        sink_run(start, events).sink.filter == start.filter,
    decreases events.len(),
{
    if events.len() > 0 {
        let all = let_through(start.filter, events);
        let before = let_through(start.filter, events.drop_last());
        let run = sink_run(start, events.drop_last());
        if all != before {
            assert(all.drop_last() =~= before);
        }
        lemma_run_totals(s, start, events.drop_last());
        match events.last() {
            SinkEvent::Frame { data, wire_len, ts, now } => {
                if load::passes(start.filter, data) {
                    let b = stats::batch_with(
                        run.sink.batch,
                        classify::classified(data),
                        wire_len,
                        ts,
                    );
                    let next = SinkRun { sink: capture::SinkView { batch: b, ..run.sink }, ..run };
                    assert(totals_come_to(s, next, all.len(), stats::size_of_all(all)));
                    lemma_handed_over_totals(s, next, now, all.len(), stats::size_of_all(all));
                }
            },
            SinkEvent::Idle { now } => {
                lemma_handed_over_totals(s, run, now, all.len(), stats::size_of_all(all));
            },
        }
    }
}

/// Once a capture has finished and its last batch is merged, the totals have
/// grown by the frames that the filter let through and by their bytes, and the
/// session holds the rows of all batches. No frame is left behind: finishing
/// again hands over nothing.
pub proof fn law_totals_count_every_frame(
    s: stats::StatsView,
    start: capture::SinkView,
    events: Seq<SinkEvent>,
    end: u64,
)
    requires
        start.batch.packets == 0,
        start.batch.bytes == 0,
        s.packets + let_through(start.filter, events).len() <= u64::MAX,
        s.bytes + stats::size_of_all(let_through(start.filter, events)) <= u64::MAX,
    ensures
        ({
            let batches = handed_over(sink_run(start, events), end).batches;
            let through = let_through(start.filter, events);
            let t = all_merged(s, batches);
            &&& t.packets == s.packets + through.len()
            &&& t.bytes == s.bytes + stats::size_of_all(through)
            &&& t.session == merged_all(s.session, batches)
        }),
        forall|later: u64|
            (#[trigger] handed_over(handed_over(sink_run(start, events), end), later))
                == handed_over(sink_run(start, events), end),
{
    let through = let_through(start.filter, events);
    lemma_run_totals(s, start, events);
    lemma_handed_over_totals(
        s,
        sink_run(start, events),
        end,
        through.len(),
        stats::size_of_all(through),
    );
}

/// A sink never holds a full batch back: between events it holds fewer packets
/// than a batch takes.
pub proof fn law_full_batches_are_handed_over(start: capture::SinkView, events: Seq<SinkEvent>)
    requires
        start.batch.packets < start.batch.max_pkts,
    ensures
        sink_run(start, events).sink.batch.packets < start.batch.max_pkts,
        sink_run(start, events).sink.batch.max_pkts == start.batch.max_pkts,
    decreases events.len(),
{
    if events.len() > 0 {
        law_full_batches_are_handed_over(start, events.drop_last());
    }
}

} // verus!
