//! Offline loading: accumulating the statistics of a whole capture.
use crate::classify;
use crate::classify::parse_frame;
use crate::consts::PCAP_PROGRESS_EVERY;
use crate::counts;
use crate::counts::{Counter, StatKey, StatsMap};
use crate::filter;
use crate::filter::FrameFilter;
use crate::parse::{Frame, Protocol};
use crate::pcap;
use crate::pcap::{
    CaptureReader, CapturedFrame, Endian, PcapError, LINKTYPE_ETHERNET, MAX_FRAME_LEN,
};
use crate::pcap_laws;
use crate::stats;
use crate::stats::{TimeSpan, MIN_WINDOW_NS};
use vstd::prelude::*;
use vstd::slice::slice_subrange;

verus! {

/// The outcome of reading a capture file.
#[derive(Debug)]
pub struct LoadResult {
    pub stats: StatsMap,
    /// Span between the first and last packet, standing in for a live window.
    pub duration_ns: u128,
    pub packets: u64,
    pub bytes: u64,
}

/// The length of a frame on the wire, not as captured: a snaplen-truncated
/// frame still occupied its full size on the link being measured.
pub open spec fn wire_size(f: pcap::CapturedView) -> nat {
    if f.orig_len as nat >= f.data.len() {
        f.orig_len as nat
    } else {
        f.data.len()
    }
}

/// The length of a captured frame on the wire.
pub fn size_on_wire(f: &CapturedFrame<'_>) -> (r: u64)
    ensures
        r == wire_size(f@),
{
    let captured: u64 = f.data.len() as u64;
    if f.orig_len as u64 >= captured {
        f.orig_len as u64
    } else {
        captured
    }
}

/// Whether a filter lets a raw frame through.
#[verifier::opaque]
pub open spec fn passes(f: filter::FrameFilterView, data: Seq<u8>) -> bool {
    let frame = classify::classified(data);
    filter::accepts(f, frame, filter::ascii_upper_id(frame.app.svid))
}

/// Classify a raw frame, if a filter lets it through.
pub fn classify_filtered(filter: &FrameFilter, data: &[u8]) -> (r: Option<Frame>)
    ensures
        match r {
            Some(frame) => passes(filter@, data@) && frame@ == classify::classified(data@),
            None => !passes(filter@, data@),
        },
{
    let frame: Frame = parse_frame(data);
    proof {
        reveal(passes);
        filter::law_wire_identifiers_are_ascii(data@);
    }
    if filter.matches(&frame) {
        Some(frame)
    } else {
        None
    }
}

/// The content of a [`Loader`].
pub ghost struct LoaderView {
    pub stats: Seq<(Protocol, Seq<(counts::StatKeyView, Counter)>)>,
    pub packets: u64,
    pub bytes: u64,
    /// The timestamps of all frames, filtered out or not.
    pub span: TimeSpan,
    /// Frames since progress was last due.
    pub since_progress: u64,
}

/// Nothing loaded.
pub open spec fn nothing_loaded() -> LoaderView {
    LoaderView {
        stats: Seq::empty(),
        packets: 0,
        bytes: 0,
        span: stats::no_span(),
        since_progress: 0,
    }
}

/// Loading one more frame.
pub open spec fn load_step(
    l: LoaderView,
    f: filter::FrameFilterView,
    frame: pcap::CapturedView,
) -> LoaderView {
    let seen = LoaderView {
        span: stats::widened(l.span, Some(frame.ts_ns)),
        since_progress: if l.since_progress + 1 >= PCAP_PROGRESS_EVERY {
            0
        } else {
            (l.since_progress + 1) as u64
        },
        ..l
    };
    let what = classify::classified(frame.data);
    let size = wire_size(frame) as u64;
    if passes(f, frame.data) {
        LoaderView {
            stats: counts::counted(
                l.stats,
                what.proto,
                counts::key_of(what),
                counts::packet(size),
            ),
            packets: (l.packets + 1) as u64,
            bytes: (l.bytes + size) as u64,
            ..seen
        }
    } else {
        seen
    }
}

/// Loading frames one after another.
pub open spec fn loaded(f: filter::FrameFilterView, frames: Seq<pcap::CapturedView>) -> LoaderView
    decreases frames.len(),
{
    if frames.len() == 0 {
        nothing_loaded()
    } else {
        load_step(loaded(f, frames.drop_last()), f, frames.last())
    }
}

/// Accumulates the frames of a capture.
pub struct Loader {
    stats: StatsMap,
    packets: u64,
    bytes: u64,
    span: TimeSpan,
    since_progress: u64,
}

impl View for Loader {
    type V = LoaderView;

    closed spec fn view(&self) -> LoaderView {
        LoaderView {
            stats: self.stats@,
            packets: self.packets,
            bytes: self.bytes,
            span: self.span,
            since_progress: self.since_progress,
        }
    }
}

impl Loader {
    /// The totals are those of the rows.
    #[verifier::type_invariant]
    closed spec fn inv(self) -> bool {
        &&& self.packets == counts::packets_over(self.stats@)
        &&& self.bytes == counts::bytes_over(self.stats@)
        &&& self.since_progress < PCAP_PROGRESS_EVERY
    }

    pub fn new() -> (r: Loader)
        ensures
            r@ == nothing_loaded(),
    {
        Loader {
            stats: StatsMap::new(),
            packets: 0,
            bytes: 0,
            span: TimeSpan::default(),
            since_progress: 0,
        }
    }

    /// Packets and bytes counted so far.
    pub fn totals(&self) -> (r: (u64, u64))
        ensures
            r == (self@.packets, self@.bytes),
    {
        (self.packets, self.bytes)
    }

    /// Whether a frame can be counted without a counter running over.
    pub fn has_room(&self, frame: &CapturedFrame<'_>) -> (r: bool)
        ensures
            r == (self@.packets < u64::MAX && self@.bytes + wire_size(frame@) <= u64::MAX),
    {
        self.packets < u64::MAX && self.bytes <= u64::MAX - size_on_wire(frame)
    }

    /// Take one frame. Returns whether progress is due.
    pub fn observe(&mut self, frame: &CapturedFrame<'_>, filter: &FrameFilter) -> (r: bool)
        requires
            passes(filter@, frame@.data) ==> {
                &&& old(self)@.packets < u64::MAX
                &&& old(self)@.bytes + wire_size(frame@) <= u64::MAX
            },
        ensures
            final(self)@ == load_step(old(self)@, filter@, frame@),
            r == (final(self)@.since_progress == 0),
    {
        let mut before: Loader = Loader::new();
        std::mem::swap(self, &mut before);
        proof {
            use_type_invariant(&before);
        }
        let Loader { stats, packets, bytes, span, since_progress } = before;
        let mut stats: StatsMap = stats;
        let mut packets: u64 = packets;
        let mut bytes: u64 = bytes;
        let mut span: TimeSpan = span;
        span.observe(Some(frame.ts_ns));
        let size: u64 = size_on_wire(frame);
        if let Some(f) = classify_filtered(filter, frame.data) {
            proof {
                counts::lemma_tally_of_within(stats@, f.proto, counts::key_of(f@));
            }
            stats.add(f.proto, StatKey::of(&f), Counter { packets: 1, bytes: size });
            packets = packets + 1;
            bytes = bytes + size;
        }
        let due: bool = since_progress + 1 >= PCAP_PROGRESS_EVERY;
        *self = Loader {
            stats,
            packets,
            bytes,
            span,
            since_progress: if due {
                0
            } else {
                since_progress + 1
            },
        };
        due
    }

    /// The result of the load.
    pub fn finish(self) -> (r: LoadResult)
        ensures
            r.stats@ == self@.stats,
            r.packets == self@.packets,
            r.bytes == self@.bytes,
            r.duration_ns == stats::longer(stats::covered(self@.span), MIN_WINDOW_NS),
            r.packets == counts::packets_over(r.stats@),
            r.bytes == counts::bytes_over(r.stats@),
    {
        proof {
            use_type_invariant(&self);
        }
        let covered: u128 = match self.span.nanos() {
            Some(n) => n,
            None => 0,
        };
        LoadResult {
            stats: self.stats,
            duration_ns: if covered >= MIN_WINDOW_NS {
                covered
            } else {
                MIN_WINDOW_NS
            },
            packets: self.packets,
            bytes: self.bytes,
        }
    }
}

/// What a reader gets out of the content from a position on.
#[verifier::opaque]
pub open spec fn ahead(v: pcap::ReaderView, content: Seq<u8>, pos: int) -> pcap_laws::Reading {
    pcap_laws::reading(v, content.skip(pos))
}

/// What reading on to the next frame gives.
pub ghost enum Next {
    /// A frame, and the position behind it.
    Frame(pcap::CapturedView, int),
    /// The end of the content.
    End,
    Fail(pcap::PcapErrorView),
}

/// The content of what [`next_frame`] returns.
pub open spec fn next_view(r: Result<Option<(CapturedFrame<'_>, usize)>, PcapError>) -> Next {
    match r {
        Ok(Some((frame, next))) => Next::Frame(frame@, next as int),
        Ok(None) => Next::End,
        Err(e) => Next::Fail(e@),
    }
}

/// Whether `out` is the next thing that a reader `v` gets out of the content
/// from a position on, and `w` the reader after it.
pub open spec fn is_next(
    v: pcap::ReaderView,
    content: Seq<u8>,
    pos: int,
    out: Next,
    w: pcap::ReaderView,
) -> bool {
    let all = ahead(v, content, pos);
    match out {
        Next::Frame(frame, next) => {
            let later = ahead(w, content, next);
            &&& pos < next <= content.len()
            &&& all.frames == seq![frame] + later.frames
            &&& all.error == later.error
        },
        Next::End => all.frames.len() == 0 && all.error is None,
        Next::Fail(e) => all.frames.len() == 0 && all.error == Some(e),
    }
}

/// Read on to the next frame. Gives it with the position behind it, or nothing
/// at the end of the content.
pub fn next_frame<'a>(reader: &mut CaptureReader, content: &'a [u8], pos: usize) -> (r: Result<
    Option<(CapturedFrame<'a>, usize)>,
    PcapError,
>)
    requires
        pos <= content@.len(),
    ensures
        is_next(old(reader)@, content@, pos as int, next_view(r), final(reader)@),
{
    let ghost all = ahead(reader@, content@, pos as int);
    let n: usize = content.len();
    let mut at: usize = pos;
    loop
        invariant
            pos <= at <= n == content@.len(),
            ahead(reader@, content@, at as int) == all,
            all == ahead(old(reader)@, content@, pos as int),
        decreases n - at,
    {
        let want: usize = reader.want();
        let ghost before = reader@;
        if n - at < want {
            let end: Option<PcapError> = reader.end();
            assert(pcap_laws::reading(reader@, content@.skip(at as int)) == all) by {
                reveal(ahead);
            }
            return match end {
                Some(e) => Err(e),
                None => Ok(None),
            };
        }
        let bytes: &'a [u8] = slice_subrange(content, at, at + want);
        let fed: Result<Option<CapturedFrame<'a>>, PcapError> = reader.feed(bytes);
        proof {
            reveal(ahead);
            let later = content@.skip(at + want);
            assert(bytes@ + later =~= content@.skip(at as int));
            pcap_laws::law_feeding_reads_the_stream(before, bytes@, later);
        }
        at = at + want;
        match fed {
            Err(e) => {
                return Err(e);
            },
            Ok(None) => {},
            Ok(Some(frame)) => {
                return Ok(Some((frame, at)));
            },
        }
    }
}

/// Read the content of a capture file and accumulate per-protocol statistics.
pub fn load_file(content: &[u8], filter: &FrameFilter) -> (r: Result<LoadResult, PcapError>)
    requires
        passing_bytes(filter@, pcap_laws::capture_in(content@).frames) <= u64::MAX,
    ensures
        match r {
            Ok(res) => {
                let l = loaded(filter@, pcap_laws::capture_in(content@).frames);
                &&& pcap_laws::capture_in(content@).error is None
                &&& res.stats@ == l.stats
                &&& res.packets == l.packets
                &&& res.bytes == l.bytes
                &&& res.duration_ns == stats::longer(stats::covered(l.span), MIN_WINDOW_NS)
            },
            Err(e) => pcap_laws::capture_in(content@).error == Some(e@),
        },
{
    let ghost all = pcap_laws::capture_in(content@);
    let n: usize = content.len();
    proof {
        pcap_laws::law_opening_reads_the_header(content@);
    }
    let mut reader: CaptureReader = CaptureReader::new(content)?;
    let mut loader: Loader = Loader::new();
    let mut pos: usize = reader.position() as usize;
    let ghost mut done: Seq<pcap::CapturedView> = Seq::empty();
    proof {
        reveal(ahead);
        assert(done + all.frames =~= all.frames);
    }
    loop
        invariant
            pos <= n == content@.len(),
            passing_bytes(filter@, all.frames) <= u64::MAX,
            all == pcap_laws::capture_in(content@),
            done.len() <= pos,
            done + ahead(reader@, content@, pos as int).frames == all.frames,
            ahead(reader@, content@, pos as int).error == all.error,
            loader@ == loaded(filter@, done),
        decreases n - pos,
    {
        let ghost before = ahead(reader@, content@, pos as int).frames;
        match next_frame(&mut reader, content, pos) {
            Err(e) => {
                return Err(e);
            },
            Ok(None) => {
                assert(done =~= all.frames);
                return Ok(loader.finish());
            },
            Ok(Some((frame, next))) => {
                proof {
                    let now = done.push(frame@);
                    let later = ahead(reader@, content@, next as int).frames;
                    assert(now.drop_last() =~= done);
                    assert(now + later =~= done + before);
                    assert(all.frames.take(now.len() as int) =~= now);
                    lemma_passing_grows(filter@, all.frames, now.len() as int);
                    assert(passing_bytes(filter@, now) == passing_bytes(filter@, done) + (if passes(
                        filter@,
                        frame@.data,
                    ) {
                        wire_size(frame@)
                    } else {
                        0nat
                    }));
                    law_a_load_counts_what_passes(filter@, done);
                    done = now;
                }
                loader.observe(&frame, filter);
                pos = next;
            },
        }
    }
}

proof fn lemma_passing_grows(f: filter::FrameFilterView, frames: Seq<pcap::CapturedView>, n: int)
    requires
        0 <= n <= frames.len(),
    ensures
        passing_bytes(f, frames.take(n)) <= passing_bytes(f, frames),
    decreases frames.len() - n,
{
    if n < frames.len() {
        lemma_passing_grows(f, frames, n + 1);
        assert(frames.take(n + 1).drop_last() =~= frames.take(n));
    } else {
        assert(frames.take(n) =~= frames);
    }
}

// ---- Laws --------------------------------------------------------------------------

/// Whether a reader gave these frames one after another: `steps` are the reader
/// and the position before each call and after the last.
pub open spec fn gave_frames(
    content: Seq<u8>,
    steps: Seq<(pcap::ReaderView, int)>,
    frames: Seq<pcap::CapturedView>,
) -> bool {
    &&& steps.len() == frames.len() + 1
    &&& forall|i: int|
        0 <= i < frames.len() ==> is_next(
            steps[i].0,
            content,
            steps[i].1,
            Next::Frame(#[trigger] frames[i], steps[i + 1].1),
            steps[i + 1].0,
        )
}

/// Calling for one frame after another reads what the content holds: the frames
/// that came, and then what is still ahead.
pub proof fn law_calls_read_the_content(
    content: Seq<u8>,
    steps: Seq<(pcap::ReaderView, int)>,
    frames: Seq<pcap::CapturedView>,
)
    requires
        gave_frames(content, steps, frames),
    ensures
        ({
            let all = ahead(steps[0].0, content, steps[0].1);
            let later = ahead(steps.last().0, content, steps.last().1);
            &&& all.frames == frames + later.frames
            &&& all.error == later.error
        }),
    decreases frames.len(),
{
    if frames.len() > 0 {
        let n = frames.len() - 1;
        let front = frames.drop_last();
        let early = steps.drop_last();
        assert forall|i: int| 0 <= i < front.len() implies is_next(
            early[i].0,
            content,
            early[i].1,
            Next::Frame(#[trigger] front[i], early[i + 1].1),
            early[i + 1].0,
        ) by {
            assert(frames[i] == front[i]);
        }
        law_calls_read_the_content(content, early, front);
        assert(is_next(
            steps[n].0,
            content,
            steps[n].1,
            Next::Frame(frames[n], steps[n + 1].1),
            steps[n + 1].0,
        ));
        let later = ahead(steps.last().0, content, steps.last().1);
        assert(front + (seq![frames[n]] + later.frames) =~= frames + later.frames);
    } else {
        let all = ahead(steps[0].0, content, steps[0].1);
        assert(frames + all.frames =~= all.frames);
    }
}

/// A classic pcap cut anywhere past its header opens, and calling for frames
/// until no more comes gives those of the records that lie wholly before the
/// cut, in order, and then the end: never an error.
pub proof fn law_a_cut_pcap_gives_its_whole_records(
    e: Endian,
    nanos: bool,
    details: Seq<u8>,
    records: Seq<pcap_laws::PcapRecord>,
    n: int,
    steps: Seq<(pcap::ReaderView, int)>,
    frames: Seq<pcap::CapturedView>,
    out: Next,
    after: pcap::ReaderView,
)
    requires
        details.len() == 16,
        forall|i: int| 0 <= i < records.len() ==> (#[trigger] records[i]).data.len()
            <= MAX_FRAME_LEN,
        24 <= n <= 24 + pcap_laws::pcap_records(e, records).len(),
        ({
            let file = pcap_laws::pcap_header(e, nanos, details, LINKTYPE_ETHERNET)
                + pcap_laws::pcap_records(e, records);
            let cut = file.take(n);
            &&& gave_frames(cut, steps, frames)
            &&& pcap::opening(cut) == pcap::Opening::Open(steps[0].0, steps[0].1 as nat)
            &&& steps[0].1 >= 0
            &&& is_next(steps.last().0, cut, steps.last().1, out, after)
            &&& !(out is Frame)
        }),
    ensures
        out is End,
        pcap_laws::gives_whole_records(
            pcap_laws::Reading { frames, error: None },
            e,
            nanos,
            records,
            n - 24,
        ),
{
    let file = pcap_laws::pcap_header(e, nanos, details, LINKTYPE_ETHERNET)
        + pcap_laws::pcap_records(e, records);
    let cut = file.take(n);
    let whole = pcap_laws::capture_in(cut);
    pcap_laws::law_cut_pcap_reads_without_error(e, nanos, details, records, n);
    pcap_laws::law_opening_reads_the_header(cut);
    law_calls_read_the_content(cut, steps, frames);
    assert(ahead(steps[0].0, cut, steps[0].1) == whole) by {
        reveal(ahead);
    }
    assert(frames =~= whole.frames);
    assert(whole == (pcap_laws::Reading { frames, error: None }));
}

/// A frame that the filter refuses changes no counter, no row and no total.
pub proof fn law_filtered_frames_are_never_counted(
    l: LoaderView,
    f: filter::FrameFilterView,
    frame: pcap::CapturedView,
)
    requires
        !passes(f, frame.data),
    ensures
        load_step(l, f, frame).stats == l.stats,
        load_step(l, f, frame).packets == l.packets,
        load_step(l, f, frame).bytes == l.bytes,
{
}

/// How many of the frames a filter lets through.
pub open spec fn passing(f: filter::FrameFilterView, frames: Seq<pcap::CapturedView>) -> nat
    decreases frames.len(),
{
    if frames.len() == 0 {
        0
    } else {
        passing(f, frames.drop_last()) + (if passes(f, frames.last().data) {
            1nat
        } else {
            0nat
        })
    }
}

/// The bytes on the wire of the frames a filter lets through.
pub open spec fn passing_bytes(f: filter::FrameFilterView, frames: Seq<pcap::CapturedView>) -> nat
    decreases frames.len(),
{
    if frames.len() == 0 {
        0
    } else {
        passing_bytes(f, frames.drop_last()) + (if passes(f, frames.last().data) {
            wire_size(frames.last())
        } else {
            0nat
        })
    }
}

/// A load counts every frame the filter lets through, once and with its size
/// on the wire, and nothing else; its rows add up to its totals.
pub proof fn law_a_load_counts_what_passes(
    f: filter::FrameFilterView,
    frames: Seq<pcap::CapturedView>,
)
    requires
        frames.len() <= u64::MAX,
        passing_bytes(f, frames) <= u64::MAX,
    ensures
        loaded(f, frames).packets == passing(f, frames),
        loaded(f, frames).bytes == passing_bytes(f, frames),
        passing(f, frames) <= frames.len(),
        counts::valid_stats(loaded(f, frames).stats),
        counts::packets_over(loaded(f, frames).stats) == passing(f, frames),
        counts::bytes_over(loaded(f, frames).stats) == passing_bytes(f, frames),
    decreases frames.len(),
{
    if frames.len() > 0 {
        let early = frames.drop_last();
        let last = frames.last();
        law_a_load_counts_what_passes(f, early);
        let before = loaded(f, early);
        let what = classify::classified(last.data);
        if passes(f, last.data) {
            counts::lemma_tally_of_within(before.stats, what.proto, counts::key_of(what));
            counts::lemma_counted(
                before.stats,
                what.proto,
                counts::key_of(what),
                counts::packet(wire_size(last) as u64),
            );
        }
    }
}

/// Progress is due after every so many frames, whatever the filter.
pub proof fn law_progress_comes_regularly(
    f: filter::FrameFilterView,
    frames: Seq<pcap::CapturedView>,
)
    ensures
        loaded(f, frames).since_progress == frames.len() % (PCAP_PROGRESS_EVERY as nat),
    decreases frames.len(),
{
    if frames.len() > 0 {
        let early = frames.drop_last();
        law_progress_comes_regularly(f, early);
        let n = early.len() as int;
        let m = PCAP_PROGRESS_EVERY as int;
        assert((n + 1) % m == (if n % m + 1 >= m {
            0
        } else {
            n % m + 1
        })) by (nonlinear_arith)
            requires
                n >= 0,
                m == 2000,
        ;
    }
}

} // verus!
