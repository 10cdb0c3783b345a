//! What the window decides and says.
//!
//! The window itself owns widgets and nothing else: what it does next, what it
//! tells the user and what the table offers for filtering all come from here.
use crate::capture;
use crate::capture::Backend;
use crate::cli::DRAIN_NS;
use crate::filter_popup;
use crate::filter_popup::FilterPopup;
use crate::fmt;
use crate::fmt::fmt_hms;
use crate::iface;
use crate::iface::Interface;
use crate::parse::{Protocol, ProtocolSet};
use crate::report;
use crate::report::{DisplayFilter, LoadLevel, Report, Row, RowKind};
use crate::sets::TextSet;
use crate::stats::NS_PER_SEC;
use crate::text;
use crate::text::decimal;
use std::collections::HashMap;
use vstd::prelude::*;

verus! {

// ---- Interfaces --------------------------------------------------------------------------

/// Whether `i` is the interface to start with: the first that the OS reports as
/// up with a negotiated speed, which is almost always the one worth watching.
pub open spec fn is_preferred(list: Seq<iface::InterfaceView>, i: int) -> bool {
    ||| {
        &&& 0 <= i < list.len()
        &&& list[i].speed_mbps is Some
        &&& forall|j: int| 0 <= j < i ==> (#[trigger] list[j]).speed_mbps is None
    }
    ||| {
        &&& i == 0
        &&& forall|j: int| 0 <= j < list.len() ==> (#[trigger] list[j]).speed_mbps is None
    }
}

/// The interface to start with.
pub fn preferred(list: &[Interface]) -> (r: usize)
    ensures
        is_preferred(iface::views(list@), r as int),
{
    let ghost all = iface::views(list@);
    let mut i: usize = 0;
    while i < list.len()
        invariant
            i <= list@.len(),
            all == iface::views(list@),
            forall|j: int| 0 <= j < i ==> (#[trigger] all[j]).speed_mbps is None,
        decreases list@.len() - i,
    {
        if list[i].speed_mbps.is_some() {
            assert(all[i as int].speed_mbps is Some);
            return i;
        }
        assert(all[i as int].speed_mbps is None);
        i += 1;
    }
    0
}

/// The negotiated speed of the selected interface, where there is one.
pub fn negotiated(list: &[Interface], selected: usize) -> (r: Option<u32>)
    ensures
        r == if selected < list@.len() {
            list@[selected as int].speed_mbps
        } else {
            None
        },
{
    if selected < list.len() {
        list[selected].speed_mbps
    } else {
        None
    }
}

// ---- The capture -------------------------------------------------------------------------

/// Where a capture stands.
pub struct CaptureState {
    /// Whether there is one.
    pub capturing: bool,
    /// Whether its backend still delivers frames.
    pub running: bool,
    /// How long ago it was asked to stop, in nanoseconds.
    pub stopping_ns: Option<u64>,
    /// Whether the time asked for is up.
    pub time_up: bool,
    /// How long ago the window was last closed, in nanoseconds.
    pub since_rotate_ns: u64,
}

/// What to do about a capture.
#[derive(Clone, Copy, Debug, PartialEq, Eq, Structural)]
pub enum Tick {
    Nothing,
    /// Wait for a stopped backend to drain.
    Wait,
    /// Ask the backend to stop.
    RequestStop,
    /// Take the capture down and show the whole run.
    Finish,
    /// Show the last window, after closing it where that is due.
    Show { rotate: bool },
}

/// What to do about a capture.
pub open spec fn tick_of(s: CaptureState) -> Tick {
    if !s.capturing {
        Tick::Nothing
    } else {
        match s.stopping_ns {
            Some(waited) => if !s.running || waited > DRAIN_NS {
                Tick::Finish
            } else {
                Tick::Wait
            },
            None => if s.time_up {
                Tick::RequestStop
            } else if !s.running {
                Tick::Finish
            } else {
                Tick::Show { rotate: s.since_rotate_ns >= NS_PER_SEC }
            },
        }
    }
}

/// Decide what to do about a capture.
pub fn tick_capture(s: &CaptureState) -> (r: Tick)
    ensures
        r == tick_of(*s),
{
    if !s.capturing {
        return Tick::Nothing;
    }
    if let Some(waited) = s.stopping_ns {
        return if !s.running || waited > DRAIN_NS {
            Tick::Finish
        } else {
            Tick::Wait
        };
    }
    if s.time_up {
        return Tick::RequestStop;
    }
    if !s.running {
        return Tick::Finish;
    }
    Tick::Show { rotate: s.since_rotate_ns >= NS_PER_SEC }
}

/// A capture is never left hanging: one whose backend has ended, or that was
/// asked to stop long enough ago, is taken down.
pub proof fn law_a_capture_comes_down(s: CaptureState)
    requires
        s.capturing,
    ensures
        !s.running && (s.stopping_ns is Some || !s.time_up) ==> tick_of(s) == Tick::Finish,
        s.stopping_ns matches Some(waited) && waited > DRAIN_NS ==> tick_of(s) == Tick::Finish,
        s.stopping_ns is None && s.time_up ==> tick_of(s) == Tick::RequestStop,
{
}

/// The table is only ever redrawn from a live window while the capture runs.
pub proof fn law_only_a_running_capture_is_shown(s: CaptureState)
    ensures
        tick_of(s) is Show ==> s.capturing && s.running && s.stopping_ns is None && !s.time_up,
{
}

/// Whether a capture can be started: not beside another, nor during a load.
pub fn can_start(capturing: bool, loading: bool) -> (r: bool)
    ensures
        r == (!capturing && !loading),
{
    !capturing && !loading
}

/// Whether a capture can be stopped: there is one, and it is not stopping yet.
pub fn can_stop(capturing: bool, stopping: bool) -> (r: bool)
    ensures
        r == (capturing && !stopping),
{
    capturing && !stopping
}

// ---- Loading -------------------------------------------------------------------------------

/// How loading a file ended.
#[derive(Clone, Copy, Debug, PartialEq, Eq, Structural)]
pub enum LoadEnd {
    Loaded,
    Cancelled,
    Failed,
}

/// How loading a file ended: what a cancelled load has read is not shown, and a
/// failure is one even then.
pub fn load_end(read: bool, cancelled: bool) -> (r: LoadEnd)
    ensures
        r == if !read {
            LoadEnd::Failed
        } else if cancelled {
            LoadEnd::Cancelled
        } else {
            LoadEnd::Loaded
        },
{
    if !read {
        LoadEnd::Failed
    } else if cancelled {
        LoadEnd::Cancelled
    } else {
        LoadEnd::Loaded
    }
}

// ---- The table ----------------------------------------------------------------------------

/// How a cell is drawn.
#[derive(Clone, Copy, Debug, PartialEq, Eq, Structural)]
pub enum CellLook {
    Plain,
    Weak,
    Strong,
    /// In the colour of errors.
    Alarm,
    /// In the colour of warnings.
    Caution,
}

/// How a cell is drawn: by what the row means, not by which column it is in. A
/// simulation-flagged frame is not real plant data, which must be impossible to
/// miss.
pub open spec fn look_of(row: report::RowView, col: int) -> CellLook {
    if row.kind == RowKind::Subtotal || row.kind == RowKind::Idle {
        CellLook::Weak
    } else if row.kind == RowKind::Total {
        CellLook::Strong
    } else if col == 8 && row.sim {
        CellLook::Alarm
    } else if col == 10 {
        match row.level {
            LoadLevel::Critical => CellLook::Alarm,
            LoadLevel::Warn => CellLook::Caution,
            LoadLevel::Normal => CellLook::Plain,
        }
    } else {
        CellLook::Plain
    }
}

/// How a cell is drawn.
pub fn cell_look(row: &Row, col: usize) -> (r: CellLook)
    ensures
        r == look_of(row@, col as int),
{
    if row.kind == RowKind::Subtotal || row.kind == RowKind::Idle {
        return CellLook::Weak;
    }
    if row.kind == RowKind::Total {
        return CellLook::Strong;
    }
    if col == 8 && row.sim {
        return CellLook::Alarm;
    }
    if col == 10 {
        return match row.load_level() {
            LoadLevel::Critical => CellLook::Alarm,
            LoadLevel::Warn => CellLook::Caution,
            LoadLevel::Normal => CellLook::Plain,
        };
    }
    CellLook::Plain
}

/// Break a protocol out of "Other", or fold it back.
pub fn toggle(enabled: &mut ProtocolSet, p: Protocol, on: bool)
    ensures
        final(enabled)@ == if on {
            old(enabled)@.insert(p)
        } else {
            old(enabled)@.remove(p)
        },
{
    if on {
        enabled.insert(p);
    } else {
        enabled.remove(p);
    }
}

/// The values noted for a column.
pub open spec fn noted(seen: Map<usize, TextSet>, col: usize) -> Set<Seq<char>> {
    if seen.contains_key(col) {
        seen[col].members()
    } else {
        Set::empty()
    }
}

/// Whether a column is among the first `n` that are walked.
pub open spec fn walked(kvs: Seq<(&usize, &TextSet)>, n: int, col: usize) -> bool {
    exists|i: int| 0 <= i < n && *(#[trigger] kvs[i]).0 == col
}

/// Add the values that a report offers for filtering to those noted before, so
/// that what is hidden stays on offer.
pub fn note_seen(seen: &mut HashMap<usize, TextSet>, report: &Report)
    ensures
        forall|c: usize| #[trigger]
            final(seen)@.contains_key(c) <==> old(seen)@.contains_key(c)
                || report.seen_values@.contains_key(c),
        forall|c: usize| #[trigger]
            noted(final(seen)@, c) == noted(old(seen)@, c).union(noted(report.seen_values@, c)),
{
    let ghost before = seen@;
    let ghost more = report.seen_values@;
    for entry in it: report.seen_values.iter()
        invariant
            more == report.seen_values@,
            forall|i: int|
                0 <= i < it.seq().len() ==> more.contains_key(*(#[trigger] it.seq()[i]).0)
                    && more[*it.seq()[i].0] == *it.seq()[i].1,
            forall|c: usize| #[trigger] more.contains_key(c) ==> walked(it.seq(), it.seq().len() as int, c),
            forall|c: usize| #[trigger]
                seen@.contains_key(c) <==> before.contains_key(c) || walked(
                    it.seq(),
                    it.index(),
                    c,
                ),
            forall|c: usize| #[trigger]
                noted(seen@, c) == if walked(it.seq(), it.index(), c) {
                    noted(before, c).union(noted(more, c))
                } else {
                    noted(before, c)
                },
    {
        let ghost earlier = seen@;
        let col: usize = *entry.0;
        let mut set: TextSet = match seen.remove(&col) {
            Some(set) => set,
            None => TextSet::new(),
        };
        assert(set.members() =~= noted(earlier, col));
        set.extend(entry.1);
        seen.insert(col, set);
        proof {
            let kvs = it.seq();
            let n = it.index();
            assert(kvs[n] == entry);
            assert forall|c: usize| walked(kvs, n + 1, c) == (walked(kvs, n, c) || c == col) by {
                if walked(kvs, n + 1, c) {
                    let i = choose|i: int| 0 <= i < n + 1 && *(#[trigger] kvs[i]).0 == c;
                    if i < n {
                        assert(*kvs[i].0 == c);
                    }
                }
                if walked(kvs, n, c) {
                    let i = choose|i: int| 0 <= i < n && *(#[trigger] kvs[i]).0 == c;
                    assert(*kvs[i].0 == c);
                }
            }
            assert forall|c: usize| #[trigger]
                noted(seen@, c) == if walked(kvs, n + 1, c) {
                    noted(before, c).union(noted(more, c))
                } else {
                    noted(before, c)
                } by {
                if c == col {
                    assert(noted(seen@, c) =~= noted(before, c).union(noted(more, c)));
                } else {
                    assert(noted(seen@, c) == noted(earlier, c));
                }
            }
        }
    }
    proof {
        assert forall|c: usize| #[trigger]
            noted(seen@, c) == noted(before, c).union(noted(more, c)) by {
            if !more.contains_key(c) {
                assert(noted(before, c).union(noted(more, c)) =~= noted(before, c));
            }
        }
    }
}

/// How a dropdown was closed.
#[derive(Clone, Copy, Debug, PartialEq, Eq, Structural)]
pub enum PopupEnd {
    Apply,
    Clear,
    Cancel,
}

/// Apply what was decided in a dropdown.
pub fn settle(popup: &FilterPopup, how: PopupEnd, filter: &mut DisplayFilter)
    ensures
        match how {
            PopupEnd::Apply => filter_popup::is_applied(
                final(filter)@,
                old(filter)@,
                popup.col,
                filter_popup::choices_view(popup.choices@),
            ),
            PopupEnd::Clear => final(filter)@ == old(filter)@.remove(popup.col),
            PopupEnd::Cancel => final(filter)@ == old(filter)@,
        },
{
    match how {
        PopupEnd::Apply => popup.apply(filter),
        PopupEnd::Clear => filter.set(popup.col, None),
        PopupEnd::Cancel => {},
    }
}

// ---- What is said --------------------------------------------------------------------------

/// The status before anything was done.
pub const IDLE_STATUS: &'static str = "Idle. Pick an interface and press Start, or open a capture file.";

/// A text, a name and another text.
fn around(before: &str, name: &str, after: &str) -> (r: String)
    ensures
        r@ == before@ + name@ + after@,
{
    let mut out: String = before.to_owned();
    out.append(name);
    out.append(after);
    out
}

/// The status once a capture has started.
pub fn started_status(target: &Interface, backend: &Backend) -> (r: String)
    ensures
        r@ == "Capturing on "@ + iface::shown(target@) + " via "@ + capture::backend_name(*backend),
{
    let mut out: String = around("Capturing on ", target.to_string().as_str(), " via ");
    out.append(backend.to_string().as_str());
    out
}

/// The status while a capture runs. The bytes are given as they are to be
/// shown.
pub fn running_status(packets: u64, bytes: &str, uptime_secs: u64) -> (r: String)
    ensures
        r@ == "Capturing - "@ + text::dec(packets as nat) + " packets, "@ + bytes@ + ", uptime "@
            + fmt::hms(uptime_secs as nat),
{
    let mut out: String = around("Capturing - ", decimal(packets).as_str(), " packets, ");
    out.append(bytes);
    out.append(", uptime ");
    out.append(fmt_hms(uptime_secs).as_str());
    out
}

/// The status once a capture has been taken down. The bytes are given as they
/// are to be shown.
pub fn stopped_status(packets: u64, bytes: &str, uptime_secs: u64) -> (r: String)
    ensures
        r@ == "Stopped. "@ + text::dec(packets as nat) + " packets, "@ + bytes@ + " over "@
            + fmt::hms(uptime_secs as nat),
{
    let mut out: String = around("Stopped. ", decimal(packets).as_str(), " packets, ");
    out.append(bytes);
    out.append(" over ");
    out.append(fmt_hms(uptime_secs).as_str());
    out
}

/// The status once a file has been loaded. The bytes and the seconds are given
/// as they are to be shown.
pub fn loaded_status(name: &str, packets: u64, bytes: &str, seconds: &str) -> (r: String)
    ensures
        r@ == "Loaded "@ + name@ + ": "@ + text::dec(packets as nat) + " packets, "@ + bytes@
            + " spanning "@ + seconds@ + " s"@,
{
    let mut out: String = around("Loaded ", name, ": ");
    out.append(decimal(packets).as_str());
    out.append(" packets, ");
    out.append(bytes);
    out.append(" spanning ");
    out.append(seconds);
    out.append(" s");
    out
}

/// The status while a file is loading.
pub fn loading_status(name: &str) -> (r: String)
    ensures
        r@ == "Loading "@ + name@ + "..."@,
{
    around("Loading ", name, "...")
}

/// The status once a load has been cancelled.
pub fn cancelled_status(name: &str) -> (r: String)
    ensures
        r@ == "Cancelled loading "@ + name@ + "."@,
{
    around("Cancelled loading ", name, ".")
}

/// The status once a load has failed.
pub fn failed_status(name: &str) -> (r: String)
    ensures
        r@ == "Failed to load "@ + name@ + "."@,
{
    around("Failed to load ", name, ".")
}

/// The complaint about a file that could not be read.
pub fn read_error(name: &str, e: &str) -> (r: String)
    ensures
        r@ == "Could not read "@ + name@ + ":\n\n"@ + e@,
{
    let mut out: String = around("Could not read ", name, ":\n\n");
    out.append(e);
    out
}

/// The complaint about a file that could not be written.
pub fn write_error(path: &str, e: &str) -> (r: String)
    ensures
        r@ == "Could not write "@ + path@ + ":\n\n"@ + e@,
{
    let mut out: String = around("Could not write ", path, ":\n\n");
    out.append(e);
    out
}

/// The status once the table has been exported.
pub fn exported_status(rows: usize, path: &str) -> (r: String)
    ensures
        r@ == "Exported "@ + text::dec(rows as nat) + " rows to "@ + path@,
{
    let mut out: String = around("Exported ", decimal(rows as u64).as_str(), " rows to ");
    out.append(path);
    out
}

} // verus!
