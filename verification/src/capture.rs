//! Live capture: backends, and what becomes of captured frames.
//!
//! Two backends are supported, tried in order:
//!
//! 1. A raw `AF_PACKET` socket, which needs `CAP_NET_RAW` (root is one way to
//!    have it, but not the only one, which is why availability is decided by
//!    *trying to open one*, not by checking for uid 0).
//! 2. `dumpcap`, the small setuid-ish helper Wireshark ships, which is
//!    normally usable without root once the user is in the `wireshark` group
//!    on Linux, or once Npcap's admin-only restriction is lifted on Windows.
//!
//! If neither works the caller gets an actionable, platform-specific message
//! rather than a capture that silently sees nothing.
use crate::classify;
use crate::consts::{BATCH_NS, BATCH_PKTS};
use crate::counts;
use crate::filter;
use crate::filter::FrameFilter;
use crate::load;
use crate::load::classify_filtered;
use crate::stats;
use crate::stats::{Batch, BatchAccum};
use crate::text;
use crate::text::trim;
use vstd::prelude::*;

verus! {

// ---- Backends ------------------------------------------------------------------------------

/// How frames are being collected.
#[derive(Clone, Debug, PartialEq, Eq)]
pub enum Backend {
    RawSocket,
    /// Through the helper that stands at a path.
    Dumpcap(String),
}

/// A backend by name.
pub open spec fn backend_name(b: Backend) -> Seq<char> {
    match b {
        Backend::RawSocket => "raw socket"@,
        Backend::Dumpcap(path) => "dumpcap ("@ + path@ + ")"@,
    }
}

impl Backend {
    /// The backend by name.
    pub fn to_string(&self) -> (r: String)
        ensures
            r@ == backend_name(*self),
    {
        match self {
            Backend::RawSocket => "raw socket".to_owned(),
            Backend::Dumpcap(path) => {
                let mut out: String = "dumpcap (".to_owned();
                out.append(path.as_str());
                out.append(")");
                out
            },
        }
    }
}

#[derive(Debug)]
pub enum CaptureError {
    NoBackend,
    Start(String),
}

/// What to do about a missing backend on Windows.
pub const NO_BACKEND_HELP_WINDOWS: &'static str = "no capture backend available.\n\nCapturing on Windows needs a packet-capture driver:\n  1. Install Wireshark (https://www.wireshark.org/), which bundles Npcap.\n  2. Then either run this program as Administrator, or re-run the Npcap\n     installer and uncheck \"Restrict Npcap driver's access to Administrators\n     only\" so it can capture without elevation.";

/// What to do about a missing backend anywhere else.
pub const NO_BACKEND_HELP: &'static str = "no capture backend available.\n\nCapturing needs permission to open a raw socket. Any one of these works:\n  * run with sudo\n  * grant the binary the capability:  sudo setcap cap_net_raw+eip <this binary>\n  * install wireshark-common and join the wireshark group:\n        sudo usermod -aG wireshark $USER   (then log out and back in)\n    which lets the dumpcap fallback capture without root.";

impl CaptureError {
    /// The error in words, with the remedy for the platform.
    pub fn to_string(&self, windows: bool) -> (r: String)
        ensures
            r@ == (match *self {
                CaptureError::NoBackend => if windows {
                    NO_BACKEND_HELP_WINDOWS@
                } else {
                    NO_BACKEND_HELP@
                },
                CaptureError::Start(msg) => msg@,
            }),
    {
        match self {
            CaptureError::NoBackend => if windows {
                NO_BACKEND_HELP_WINDOWS.to_owned()
            } else {
                NO_BACKEND_HELP.to_owned()
            },
            CaptureError::Start(msg) => msg.clone(),
        }
    }
}

/// Pick the best backend: a raw socket where one can be opened, else `dumpcap`
/// where it was found.
pub fn select_backend(raw_available: bool, dumpcap: Option<String>) -> (r: Result<
    Backend,
    CaptureError,
>)
    ensures
        match r {
            Ok(Backend::RawSocket) => raw_available,
            Ok(Backend::Dumpcap(path)) => !raw_available && dumpcap is Some && path@ == dumpcap->0@,
            Err(e) => e is NoBackend && !raw_available && dumpcap is None,
        },
{
    if raw_available {
        return Ok(Backend::RawSocket);
    }
    match dumpcap {
        Some(path) => Ok(Backend::Dumpcap(path)),
        None => Err(CaptureError::NoBackend),
    }
}

/// Where `dumpcap` may stand outside the search path, but for Windows.
pub const DUMPCAP_DIRS: [&'static str; 4] = [
    "/usr/bin",
    "/usr/sbin",
    "/usr/local/bin",
    "/opt/wireshark/bin",
];

/// The variables that name a directory which may hold Wireshark on Windows.
pub const PROGRAM_DIR_VARS: [&'static str; 3] = [
    "ProgramFiles",
    "ProgramFiles(x86)",
    "ProgramW6432",
];

/// The registry keys under which the Windows installer records itself.
pub const INSTALL_KEYS: [&'static str; 2] = [
    "SOFTWARE\\Wireshark",
    "SOFTWARE\\WOW6432Node\\Wireshark",
];

/// The file name of Wireshark's `dumpcap` helper.
pub fn dumpcap_name(windows: bool) -> (r: &'static str)
    ensures
        r@ == if windows {
            "dumpcap.exe"@
        } else {
            "dumpcap"@
        },
{
    if windows {
        "dumpcap.exe"
    } else {
        "dumpcap"
    }
}

/// Locate Wireshark's `dumpcap` helper among the places where it may stand, in
/// the order in which they are tried: the first that is a file.
pub fn find_dumpcap(is_file: &[bool]) -> (r: Option<usize>)
    ensures
        match r {
            Some(i) => i < is_file@.len() && is_file@[i as int] && forall|j: int|
                0 <= j < i ==> !is_file@[j],
            None => forall|j: int| 0 <= j < is_file@.len() ==> !is_file@[j],
        },
{
    let mut i: usize = 0;
    while i < is_file.len()
        invariant
            i <= is_file@.len(),
            forall|j: int| 0 <= j < i ==> !is_file@[j],
        decreases is_file@.len() - i,
    {
        if is_file[i] {
            return Some(i);
        }
        i += 1;
    }
    None
}

// ---- The sink ------------------------------------------------------------------------------

/// The content of a [`StatsSink`].
pub ghost struct SinkView {
    pub filter: filter::FrameFilterView,
    pub batch: stats::BatchAccumView,
}

/// A batch just opened.
pub open spec fn opened(b: stats::BatchAccumView, now: u64) -> stats::BatchAccumView {
    stats::BatchAccumView {
        stats: Seq::empty(),
        packets: 0,
        bytes: 0,
        span: stats::no_span(),
        since: now,
        ..b
    }
}

/// Whether a batch was handed over as it stood.
pub open spec fn is_batch(r: Option<Batch>, b: stats::BatchAccumView) -> bool {
    match r {
        Some(batch) => {
            &&& batch.stats@ == b.stats
            &&& batch.packets == b.packets
            &&& batch.bytes == b.bytes
            &&& batch.span == b.span
            &&& batch.packets == counts::packets_over(batch.stats@)
            &&& batch.bytes == counts::bytes_over(batch.stats@)
        },
        None => false,
    }
}

/// Parses, filters and accumulates frames.
///
/// Frames are folded into a batch first, so that whoever keeps the statistics
/// is troubled once per batch instead of once per frame. A sink that batches
/// needs to know about more than arrivals: without [`idle`](StatsSink::idle)
/// and [`finish`](StatsSink::finish), the tail of a burst would sit in a
/// half-full batch until the *next* burst arrived, landing in the wrong
/// window, minutes later, on exactly the sparse protocols where accuracy
/// matters most.
pub struct StatsSink {
    filter: FrameFilter,
    batch: BatchAccum,
}

impl View for StatsSink {
    type V = SinkView;

    closed spec fn view(&self) -> SinkView {
        SinkView { filter: self.filter@, batch: self.batch@ }
    }
}

impl StatsSink {
    pub fn new(filter: FrameFilter, now: u64) -> (r: StatsSink)
        ensures
            r@.filter == filter@,
            r@.batch == (stats::BatchAccumView {
                stats: Seq::empty(),
                packets: 0,
                bytes: 0,
                span: stats::no_span(),
                since: now,
                max_pkts: BATCH_PKTS,
                max_ns: BATCH_NS,
            }),
    {
        StatsSink { filter, batch: BatchAccum::new(BATCH_PKTS, BATCH_NS, now) }
    }

    /// Whether a frame of the given length can be counted without a counter
    /// running over.
    pub fn has_room(&self, wire_len: u64) -> (r: bool)
        ensures
            r == (self@.batch.packets < u64::MAX && self@.batch.bytes + wire_len <= u64::MAX),
    {
        self.batch.has_room(wire_len)
    }

    /// One captured frame, with its length on the wire and, where the backend
    /// knows it, the time it was actually captured. Returns a batch to merge
    /// once one is ready.
    ///
    /// The timestamp matters because a backend can deliver frames later and
    /// more unevenly than they arrived on the wire; without it, rates measure
    /// how the frames reached us rather than how they crossed the link.
    pub fn frame(&mut self, data: &[u8], wire_len: u64, ts: Option<u128>, now: u64) -> (r: Option<
        Batch,
    >)
        requires
            old(self)@.batch.packets < u64::MAX,
            old(self)@.batch.bytes + wire_len <= u64::MAX,
        ensures
            final(self)@.filter == old(self)@.filter,
            !load::passes(old(self)@.filter, data@) ==> r is None && final(self)@ == old(self)@,
            load::passes(old(self)@.filter, data@) ==> ({
                let b = stats::batch_with(
                    old(self)@.batch,
                    classify::classified(data@),
                    wire_len,
                    ts,
                );
                if stats::batch_full(b, now) {
                    is_batch(r, b) && final(self)@.batch == opened(b, now)
                } else {
                    r is None && final(self)@.batch == b
                }
            }),
    {
        // Filtered frames are dropped before they touch any counter.
        match classify_filtered(&self.filter, data) {
            None => None,
            Some(parsed) => if self.batch.push(&parsed, wire_len, ts, now) {
                self.flush(now)
            } else {
                None
            },
        }
    }

    /// No frame arrived within the backend's poll interval. Returns what is
    /// still buffered.
    pub fn idle(&mut self, now: u64) -> (r: Option<Batch>)
        ensures
            final(self)@.filter == old(self)@.filter,
            if old(self)@.batch.packets == 0 {
                r is None && final(self)@ == old(self)@
            } else {
                is_batch(r, old(self)@.batch) && final(self)@.batch == opened(
                    old(self)@.batch,
                    now,
                )
            },
    {
        self.flush(now)
    }

    /// The capture is ending. Returns what is still buffered.
    pub fn finish(&mut self, now: u64) -> (r: Option<Batch>)
        ensures
            final(self)@.filter == old(self)@.filter,
            if old(self)@.batch.packets == 0 {
                r is None && final(self)@ == old(self)@
            } else {
                is_batch(r, old(self)@.batch) && final(self)@.batch == opened(
                    old(self)@.batch,
                    now,
                )
            },
    {
        self.flush(now)
    }

    fn flush(&mut self, now: u64) -> (r: Option<Batch>)
        ensures
            final(self)@.filter == old(self)@.filter,
            if old(self)@.batch.packets == 0 {
                r is None && final(self)@ == old(self)@
            } else {
                is_batch(r, old(self)@.batch) && final(self)@.batch == opened(
                    old(self)@.batch,
                    now,
                )
            },
    {
        if self.batch.is_empty() {
            return None;
        }
        Some(self.batch.take(now))
    }
}

// ---- The capture thread ------------------------------------------------------------------

/// What came of one attempt to read from a backend.
pub enum Received {
    /// So many bytes from a socket: a frame, where there are any.
    Bytes(usize),
    /// A frame of so many bytes from a capture stream.
    Record(usize),
    /// Nothing within the poll interval.
    Nothing,
    /// The end of the stream.
    Ended,
    /// The backend failed, for the given reason.
    Failed(String),
}

/// What the capture thread does next.
#[derive(Debug, PartialEq, Eq)]
pub enum NextStep {
    /// Deliver a frame of so many bytes.
    Deliver(usize),
    /// Tell the sink that nothing arrived.
    Idle,
    /// Finish, with a complaint where there is one.
    Finish(Option<String>),
}

/// Whether a step is the one to take on what came of a read: a failure is worth
/// a complaint unless it came of stopping.
pub open spec fn is_next(r: NextStep, got: Received, stopping: bool, why: Seq<char>) -> bool {
    match got {
        Received::Bytes(n) => if n > 0 {
            r == NextStep::Deliver(n)
        } else {
            r == NextStep::Idle
        },
        Received::Record(n) => r == NextStep::Deliver(n),
        Received::Nothing => r == NextStep::Idle,
        Received::Ended => r == NextStep::Finish(None),
        Received::Failed(e) => if stopping {
            r == NextStep::Finish(None)
        } else {
            match r {
                NextStep::Finish(Some(msg)) => msg@ == why + ": "@ + e@,
                _ => false,
            }
        },
    }
}

/// Decide how a capture thread goes on. A receive that brought nothing is the
/// natural moment to hand over a partially filled batch: the link is quiet
/// right now.
pub fn after_read(got: Received, stopping: bool, why: &str) -> (r: NextStep)
    ensures
        is_next(r, got, stopping, why@),
{
    match got {
        Received::Bytes(n) => if n > 0 {
            NextStep::Deliver(n)
        } else {
            NextStep::Idle
        },
        Received::Record(n) => NextStep::Deliver(n),
        Received::Nothing => NextStep::Idle,
        Received::Ended => NextStep::Finish(None),
        Received::Failed(e) => if stopping {
            NextStep::Finish(None)
        } else {
            let mut msg: String = why.to_owned();
            msg.append(": ");
            msg.append(e.as_str());
            NextStep::Finish(Some(msg))
        },
    }
}

/// Keep a complaint, unless there is one already.
pub fn complain(slot: &mut Option<String>, msg: String)
    ensures
        match *old(slot) {
            Some(_) => *final(slot) == *old(slot),
            None => *final(slot) == Some(msg),
        },
{
    if slot.is_none() {
        *slot = Some(msg);
    }
}

/// Why `dumpcap` could not start: its own words where it had any, which are far
/// more useful than the unreadable stream they show up as.
pub fn start_complaint(stderr: &str, error: &str) -> (r: String)
    ensures
        r@ == "dumpcap could not start capturing: "@ + (if text::trimmed(stderr@).len() > 0 {
            text::trimmed(stderr@)
        } else {
            error@
        }),
{
    let mut out: String = "dumpcap could not start capturing: ".to_owned();
    let own: String = trim(stderr);
    if own.as_str().is_empty() {
        out.append(error);
    } else {
        out.append(own.as_str());
    }
    out
}

} // verus!
