//! What the command line asks for, and what it prints around the table.
use crate::capture;
use crate::capture::Backend;
use crate::filter;
use crate::filter::{parse_appids, parse_ids, parse_redundancy, parse_vlans, FrameFilter};
use crate::iface;
use crate::iface::Interface;
use crate::parse;
use crate::parse::{Protocol, ProtocolSet, PROTO_ORDER};
use crate::sets::TextSet;
use crate::text;
use crate::text::{decimal, push_run};
use std::collections::BTreeSet;
use vstd::prelude::*;

verus! {

// ---- Protocol detail -----------------------------------------------------------------------

/// The flags that ask for a protocol's detail.
#[derive(Clone, Copy, Debug, PartialEq, Eq, Structural)]
pub struct Details {
    pub goose: bool,
    pub sv: bool,
    pub rgoose: bool,
    pub ptp: bool,
    pub mms: bool,
    pub dnp3: bool,
    pub iec104: bool,
    pub modbus: bool,
    pub all: bool,
}

/// Whether a protocol's own flag is given.
pub open spec fn flag_given(d: Details, p: Protocol) -> bool {
    match p {
        Protocol::Goose => d.goose,
        Protocol::SampledValues => d.sv,
        Protocol::RGoose => d.rgoose,
        Protocol::Ptp => d.ptp,
        Protocol::Mms => d.mms,
        Protocol::Dnp3 => d.dnp3,
        Protocol::Iec104 => d.iec104,
        Protocol::ModbusTcp => d.modbus,
        _ => false,
    }
}

/// Whether the flags ask for a protocol's detail.
pub open spec fn asks_for(d: Details, p: Protocol) -> bool {
    if d.all {
        parse::featured(p)
    } else {
        flag_given(d, p)
    }
}

fn add_if(set: &mut ProtocolSet, on: bool, p: Protocol)
    ensures
        final(set)@ == if on {
            old(set)@.insert(p)
        } else {
            old(set)@
        },
{
    if on {
        set.insert(p);
    }
}

impl Details {
    /// The protocols to break out of "Other".
    pub fn enabled_protocols(&self) -> (r: ProtocolSet)
        ensures
            forall|p: Protocol| #[trigger] r@.contains(p) <==> asks_for(*self, p),
    {
        if self.all {
            return ProtocolSet::from_list(PROTO_ORDER.as_slice());
        }
        let mut out: ProtocolSet = ProtocolSet::new();
        add_if(&mut out, self.goose, Protocol::Goose);
        add_if(&mut out, self.sv, Protocol::SampledValues);
        add_if(&mut out, self.rgoose, Protocol::RGoose);
        add_if(&mut out, self.ptp, Protocol::Ptp);
        add_if(&mut out, self.mms, Protocol::Mms);
        add_if(&mut out, self.dnp3, Protocol::Dnp3);
        add_if(&mut out, self.iec104, Protocol::Iec104);
        add_if(&mut out, self.modbus, Protocol::ModbusTcp);
        out
    }
}

/// Every protocol with a flag can be broken out.
proof fn lemma_flags_are_featured(p: Protocol)
    ensures
        (exists|d: Details| #[trigger] flag_given(d, p)) ==> parse::featured(p),
{
    assert(PROTO_ORDER@[0] == Protocol::Goose);
    assert(PROTO_ORDER@[1] == Protocol::SampledValues);
    assert(PROTO_ORDER@[2] == Protocol::RGoose);
    assert(PROTO_ORDER@[3] == Protocol::Ptp);
    assert(PROTO_ORDER@[4] == Protocol::Mms);
    assert(PROTO_ORDER@[5] == Protocol::Dnp3);
    assert(PROTO_ORDER@[6] == Protocol::Iec104);
    assert(PROTO_ORDER@[7] == Protocol::ModbusTcp);
}

/// Asking for all is asking for each: the flag that breaks out every protocol
/// is the union of the individual flags.
pub proof fn law_all_is_the_union_of_the_flags(d: Details, each: Details, p: Protocol)
    requires
        d.all,
        each.goose && each.sv && each.rgoose && each.ptp && each.mms && each.dnp3 && each.iec104
            && each.modbus,
    ensures
        asks_for(d, p) == asks_for(each, p),
{
    lemma_flags_are_featured(p);
    if parse::featured(p) {
        let j = PROTO_ORDER@.index_of(p);
        assert(PROTO_ORDER@[j] == p);
    }
    assert(flag_given(each, p) ==> parse::featured(p));
}

/// A flag selects its own protocol and no other: with and without it, the same
/// is asked for but that protocol.
pub proof fn law_a_flag_selects_only_its_protocol(d: Details, e: Details, p: Protocol, q: Protocol)
    requires
        !d.all,
        !e.all,
        p != q,
        forall|x: Protocol| x != p ==> #[trigger] flag_given(d, x) == flag_given(e, x),
    ensures
        asks_for(d, q) == asks_for(e, q),
{
}

// ---- Filters ---------------------------------------------------------------------------------

/// The values of the filter flags.
pub struct FilterArgs {
    pub vlan: Option<String>,
    pub redundancy: Option<String>,
    pub appid: Option<String>,
    pub goid: Option<String>,
    pub svid: Option<String>,
}

/// Whether a flag's value is read without complaint.
pub open spec fn is_readable(flag: Option<String>, valid: spec_fn(Seq<char>) -> bool) -> bool {
    match flag {
        Some(s) => filter::none_refused(text::list_items(s@), valid),
        None => true,
    }
}

/// Whether `e` complains about the first unreadable item of a flag's value.
pub open spec fn complains(
    e: Seq<char>,
    flag: Option<String>,
    valid: spec_fn(Seq<char>) -> bool,
    complaint: spec_fn(Seq<char>) -> Seq<char>,
) -> bool {
    match flag {
        Some(s) => exists|i: int|
            #[trigger] filter::first_refused(text::list_items(s@), valid, i) && e == complaint(
                text::list_items(s@)[i],
            ),
        None => false,
    }
}

/// The complaints about VLAN ids.
pub open spec fn vlan_complaint() -> spec_fn(Seq<char>) -> Seq<char> {
    |v: Seq<char>| filter::vlan_error(v)
}

/// The complaints about redundancy tokens.
pub open spec fn redundancy_complaint() -> spec_fn(Seq<char>) -> Seq<char> {
    |v: Seq<char>| filter::redundancy_error(v)
}

/// The complaints about AppIDs.
pub open spec fn appid_complaint() -> spec_fn(Seq<char>) -> Seq<char> {
    |v: Seq<char>| filter::appid_error(v)
}

/// The numbers in a flag's value.
pub open spec fn numbers_of(
    flag: Option<String>,
    read: spec_fn(Seq<char>) -> Option<nat>,
) -> Option<Set<u16>> {
    match flag {
        Some(s) => Some(filter::numbers_in(text::list_items(s@), read)),
        None => None,
    }
}

/// The texts in a flag's value.
pub open spec fn texts_of(flag: Option<String>, change: spec_fn(Seq<char>) -> Seq<char>) -> Set<
    Seq<char>,
> {
    match flag {
        Some(s) => filter::changed(text::list_items(s@), change).to_set(),
        None => Set::empty(),
    }
}

/// Whether a set of texts holds exactly the given ones, and is absent where no
/// flag is given.
pub open spec fn holds_exactly(set: Option<TextSet>, given: bool, texts: Set<Seq<char>>) -> bool {
    match set {
        Some(s) => given && s.members() == texts,
        None => !given,
    }
}

fn vlans_given(flag: &Option<String>) -> (r: Result<Option<BTreeSet<u16>>, String>)
    ensures
        match r {
            Ok(set) => is_readable(*flag, filter::vlan_ok()) && filter::opt_set(set) == numbers_of(
                *flag,
                filter::vlan_reader(),
            ),
            Err(e) => complains(e@, *flag, filter::vlan_ok(), vlan_complaint()),
        },
{
    match flag {
        None => Ok(None),
        Some(s) => match parse_vlans(s.as_str()) {
            Ok(set) => Ok(Some(set)),
            Err(e) => Err(e),
        },
    }
}

fn appids_given(flag: &Option<String>) -> (r: Result<Option<BTreeSet<u16>>, String>)
    ensures
        match r {
            Ok(set) => is_readable(*flag, filter::appid_ok()) && filter::opt_set(set) == numbers_of(
                *flag,
                filter::appid_reader(),
            ),
            Err(e) => complains(e@, *flag, filter::appid_ok(), appid_complaint()),
        },
{
    match flag {
        None => Ok(None),
        Some(s) => match parse_appids(s.as_str()) {
            Ok(set) => Ok(Some(set)),
            Err(e) => Err(e),
        },
    }
}

fn redundancy_given(flag: &Option<String>) -> (r: Result<Option<TextSet>, String>)
    ensures
        match r {
            Ok(set) => is_readable(*flag, filter::token_ok()) && holds_exactly(
                set,
                *flag is Some,
                texts_of(*flag, filter::to_lower()),
            ),
            Err(e) => complains(e@, *flag, filter::token_ok(), redundancy_complaint()),
        },
        *flag matches Some(s) && text::ascii(s@) ==> match r {
            Ok(set) => is_readable(*flag, filter::ascii_token_ok()) && holds_exactly(
                set,
                true,
                texts_of(*flag, filter::to_ascii_lower()),
            ),
            Err(e) => complains(e@, *flag, filter::ascii_token_ok(), redundancy_complaint()),
        },
{
    match flag {
        None => Ok(None),
        Some(s) => match parse_redundancy(s.as_str()) {
            Ok(set) => Ok(Some(set)),
            Err(e) => Err(e),
        },
    }
}

/// Whether a flag's value is ASCII, or not given.
pub open spec fn ascii_flag(flag: Option<String>) -> bool {
    flag matches Some(s) ==> text::ascii(s@)
}

impl FilterArgs {
    /// The identifiers of both flags, merged: they target the same column.
    fn ids_given(&self) -> (r: Option<TextSet>)
        ensures
            holds_exactly(
                r,
                self.goid is Some || self.svid is Some,
                texts_of(self.goid, filter::to_upper()).union(
                    texts_of(self.svid, filter::to_upper()),
                ),
            ),
            ascii_flag(self.goid) && ascii_flag(self.svid) ==> holds_exactly(
                r,
                self.goid is Some || self.svid is Some,
                texts_of(self.goid, filter::to_ascii_upper()).union(
                    texts_of(self.svid, filter::to_ascii_upper()),
                ),
            ),
    {
        let mut out: Option<TextSet> = None;
        if let Some(s) = &self.goid {
            out = Some(parse_ids(s.as_str()));
            assert(texts_of(self.goid, filter::to_upper()).union(Set::empty()) =~= texts_of(
                self.goid,
                filter::to_upper(),
            ));
            assert(texts_of(self.goid, filter::to_ascii_upper()).union(Set::empty()) =~= texts_of(
                self.goid,
                filter::to_ascii_upper(),
            ));
        }
        if let Some(s) = &self.svid {
            let more: TextSet = parse_ids(s.as_str());
            out = match out {
                Some(set) => {
                    let mut set: TextSet = set;
                    set.extend(&more);
                    Some(set)
                },
                None => {
                    assert(Set::empty().union(texts_of(self.svid, filter::to_upper()))
                        =~= texts_of(self.svid, filter::to_upper()));
                    assert(Set::empty().union(texts_of(self.svid, filter::to_ascii_upper()))
                        =~= texts_of(self.svid, filter::to_ascii_upper()));
                    Some(more)
                },
            };
        }
        out
    }

    /// The filter that the flags ask for. The first flag in the order VLAN,
    /// redundancy, AppID whose value cannot be read is complained about.
    pub fn frame_filter(&self) -> (r: Result<FrameFilter, String>)
        ensures
            match r {
                Ok(f) => {
                    &&& is_readable(self.vlan, filter::vlan_ok())
                    &&& is_readable(self.redundancy, filter::token_ok())
                    &&& is_readable(self.appid, filter::appid_ok())
                    &&& f@.vlans == numbers_of(self.vlan, filter::vlan_reader())
                    &&& holds_exactly(
                        f.redundancy,
                        self.redundancy is Some,
                        texts_of(self.redundancy, filter::to_lower()),
                    )
                    &&& f@.appids == numbers_of(self.appid, filter::appid_reader())
                    &&& holds_exactly(
                        f.svids,
                        self.goid is Some || self.svid is Some,
                        texts_of(self.goid, filter::to_upper()).union(
                            texts_of(self.svid, filter::to_upper()),
                        ),
                    )
                },
                Err(e) => {
                    ||| complains(e@, self.vlan, filter::vlan_ok(), vlan_complaint())
                    ||| {
                        &&& is_readable(self.vlan, filter::vlan_ok())
                        &&& complains(
                            e@,
                            self.redundancy,
                            filter::token_ok(),
                            redundancy_complaint(),
                        )
                    }
                    ||| {
                        &&& is_readable(self.vlan, filter::vlan_ok())
                        &&& is_readable(self.redundancy, filter::token_ok())
                        &&& complains(e@, self.appid, filter::appid_ok(), appid_complaint())
                    }
                },
            },
            // Of ASCII values, letter case is plain.
            ascii_flag(self.redundancy) && ascii_flag(self.goid) && ascii_flag(self.svid)
                ==> match r {
                Ok(f) => {
                    &&& is_readable(self.redundancy, filter::ascii_token_ok())
                    &&& holds_exactly(
                        f.redundancy,
                        self.redundancy is Some,
                        texts_of(self.redundancy, filter::to_ascii_lower()),
                    )
                    &&& holds_exactly(
                        f.svids,
                        self.goid is Some || self.svid is Some,
                        texts_of(self.goid, filter::to_ascii_upper()).union(
                            texts_of(self.svid, filter::to_ascii_upper()),
                        ),
                    )
                },
                Err(_) => {
                    ||| !is_readable(self.vlan, filter::vlan_ok())
                    ||| !is_readable(self.redundancy, filter::ascii_token_ok())
                    ||| !is_readable(self.appid, filter::appid_ok())
                },
            },
    {
        let svids: Option<TextSet> = self.ids_given();
        let vlans: Option<BTreeSet<u16>> = match vlans_given(&self.vlan) {
            Ok(v) => v,
            Err(e) => {
                return Err(e);
            },
        };
        let redundancy: Option<TextSet> = match redundancy_given(&self.redundancy) {
            Ok(v) => v,
            Err(e) => {
                return Err(e);
            },
        };
        let appids: Option<BTreeSet<u16>> = match appids_given(&self.appid) {
            Ok(v) => v,
            Err(e) => {
                return Err(e);
            },
        };
        Ok(FrameFilter { vlans, redundancy, appids, svids })
    }
}

/// The footer's note on a filter.
pub open spec fn note_on(f: filter::FrameFilterView) -> Seq<char> {
    if f == filter::no_filter() {
        Seq::empty()
    } else {
        "filter "@ + text::joined(filter::summary_parts(f), " "@)
    }
}

/// The footer's note on a filter, empty where nothing is filtered.
pub fn filter_note(f: &FrameFilter) -> (r: String)
    ensures
        r@ == note_on(f@),
{
    if f.is_empty() {
        String::new()
    } else {
        let mut out: String = "filter ".to_owned();
        out.append(f.summary().as_str());
        out
    }
}

// ---- Texts -----------------------------------------------------------------------------------

/// An interface in the listing of interfaces.
pub open spec fn list_line(i: iface::InterfaceView) -> Seq<char> {
    match i.speed_mbps {
        Some(mbps) => "  "@ + iface::shown(i) + "  ["@ + text::dec(mbps as nat) + " Mb/s]"@,
        None => "  "@ + iface::shown(i),
    }
}

/// An interface in the listing of interfaces.
pub fn interface_line(i: &Interface) -> (r: String)
    ensures
        r@ == list_line(i@),
{
    let mut out: String = "  ".to_owned();
    out.append(i.to_string().as_str());
    if let Some(mbps) = i.speed_mbps {
        out.append("  [");
        out.append(decimal(mbps as u64).as_str());
        out.append(" Mb/s]");
    }
    out
}

/// The interfaces, each on a line of its own.
pub open spec fn named_lines(list: Seq<iface::InterfaceView>) -> Seq<char>
    decreases list.len(),
{
    if list.len() == 0 {
        Seq::empty()
    } else {
        named_lines(list.drop_last()) + "\n  "@ + iface::shown(list.last())
    }
}

/// The complaint about an interface that is not there, with those that are.
pub fn no_such_interface(input: &str, list: &[Interface]) -> (r: String)
    ensures
        r@ == "no such interface: "@ + input@ + "\n\nAvailable interfaces:"@ + named_lines(
            iface::views(list@),
        ),
{
    let mut out: String = "no such interface: ".to_owned();
    out.append(input);
    out.append("\n\nAvailable interfaces:");
    let ghost head = out@;
    let ghost all = iface::views(list@);
    let mut i: usize = 0;
    assert(out@ =~= head + named_lines(all.take(0)));
    while i < list.len()
        invariant
            i <= list@.len(),
            all == iface::views(list@),
            out@ == head + named_lines(all.take(i as int)),
        decreases list@.len() - i,
    {
        out.append("\n  ");
        out.append(list[i].to_string().as_str());
        assert(all.take(i + 1).drop_last() =~= all.take(i as int));
        assert(out@ =~= head + named_lines(all.take(i + 1)));
        i += 1;
    }
    assert(all.take(i as int) =~= all);
    out
}

/// Where the link speed comes from that loads are measured against.
#[derive(Clone, Copy, Debug, PartialEq, Eq, Structural)]
pub enum SpeedOrigin {
    Given,
    /// Negotiated by the link, in Mb/s.
    Detected(u32),
    Assumed,
}

/// Measure load against the link's own negotiated speed unless told otherwise.
/// Assuming 100 Mb/s on a gigabit link silently reports every percentage ten
/// times too high, which is worse than useless on a tool whose entire job is
/// reporting link load.
pub fn speed_origin(given: bool, detected: Option<u32>) -> (r: SpeedOrigin)
    ensures
        r == if given {
            SpeedOrigin::Given
        } else {
            match detected {
                Some(mbps) => SpeedOrigin::Detected(mbps),
                None => SpeedOrigin::Assumed,
            }
        },
{
    if given {
        return SpeedOrigin::Given;
    }
    match detected {
        Some(mbps) => SpeedOrigin::Detected(mbps),
        None => SpeedOrigin::Assumed,
    }
}

/// The origin of a link speed in words.
pub open spec fn origin_words(o: SpeedOrigin) -> Seq<char> {
    match o {
        SpeedOrigin::Given => "as given"@,
        SpeedOrigin::Detected(_) => "detected"@,
        SpeedOrigin::Assumed => "assumed; set -s for this link"@,
    }
}

impl SpeedOrigin {
    /// The origin in words.
    pub fn words(&self) -> (r: &'static str)
        ensures
            r@ == origin_words(*self),
    {
        match self {
            SpeedOrigin::Given => "as given",
            SpeedOrigin::Detected(_) => "detected",
            SpeedOrigin::Assumed => "assumed; set -s for this link",
        }
    }
}

/// What is measured, and against which speed: the title of a panel.
pub fn title_context(name: &str, speed: &str) -> (r: String)
    ensures
        r@ == name@ + " @ "@ + speed@ + " Mb/s"@,
{
    let mut out: String = name.to_owned();
    out.append(" @ ");
    out.append(speed);
    out.append(" Mb/s");
    out
}

/// The announcement of a capture. Its speed, window and duration are given as
/// they are to be shown; without a duration it runs until stopped.
pub fn start_note(
    target: &Interface,
    speed: &str,
    origin: SpeedOrigin,
    window: &str,
    duration: Option<&str>,
    backend: &Backend,
) -> (r: String)
    ensures
        r@ == "Starting capture on "@ + iface::shown(target@) + " at "@ + speed@ + " Mb/s ("@
            + origin_words(origin) + "), "@ + window@ + "s window, "@ + (match duration {
            Some(d) => d@ + "s duration"@,
            None => "running until stopped"@,
        }) + ", via "@ + capture::backend_name(*backend),
{
    let mut out: String = "Starting capture on ".to_owned();
    out.append(target.to_string().as_str());
    out.append(" at ");
    out.append(speed);
    out.append(" Mb/s (");
    out.append(origin.words());
    out.append("), ");
    out.append(window);
    out.append("s window, ");
    let span: String = match duration {
        Some(d) => {
            let mut s: String = d.to_owned();
            s.append("s duration");
            s
        },
        None => "running until stopped".to_owned(),
    };
    out.append(span.as_str());
    out.append(", via ");
    out.append(backend.to_string().as_str());
    out
}

/// The width of the progress bar.
pub const BAR_WIDTH: usize = 30;

/// A progress bar with so many of its places filled.
pub open spec fn bar(filled: nat) -> Seq<char> {
    let n = if filled <= BAR_WIDTH {
        filled
    } else {
        BAR_WIDTH as nat
    };
    text::run('#', n) + text::run('.', (BAR_WIDTH - n) as nat)
}

/// The line that shows how far a file is loaded. The percentage and the bytes
/// are given as they are to be shown.
pub fn progress_line(name: &str, filled: usize, percent: &str, packets: u64, bytes: &str) -> (r:
    String)
    ensures
        r@ == "\rLoading "@ + name@ + " ["@ + bar(filled as nat) + "] "@ + percent@ + "%  "@
            + text::dec(packets as nat) + " packets ("@ + bytes@ + ")   "@,
{
    let n: usize = if filled <= BAR_WIDTH {
        filled
    } else {
        BAR_WIDTH
    };
    let mut out: String = "\rLoading ".to_owned();
    out.append(name);
    out.append(" [");
    let ghost head = out@;
    push_run(&mut out, '#', n);
    push_run(&mut out, '.', BAR_WIDTH - n);
    assert(out@ =~= head + bar(filled as nat));
    out.append("] ");
    out.append(percent);
    out.append("%  ");
    out.append(decimal(packets).as_str());
    out.append(" packets (");
    out.append(bytes);
    out.append(")   ");
    out
}

/// Progress fills a bar without changing its width.
pub proof fn law_a_bar_keeps_its_width(filled: nat)
    ensures
        bar(filled).len() == BAR_WIDTH,
{
}

// ---- The live loop ----------------------------------------------------------------------------

/// What the live view does next.
#[derive(Clone, Copy, Debug, PartialEq, Eq, Structural)]
pub enum LiveStep {
    /// Stop the capture.
    Stop,
    /// Go on; close the window first where it is over.
    Show { rotate: bool },
}

/// Decide how the live view goes on: it ends when interrupted, when the backend
/// has ended, or when the time asked for is up, and turns the window over when
/// that is due.
pub fn live_step(interrupted: bool, running: bool, time_up: bool, window_over: bool) -> (r:
    LiveStep)
    ensures
        r == if interrupted || !running || time_up {
            LiveStep::Stop
        } else {
            LiveStep::Show { rotate: window_over }
        },
{
    if interrupted || !running {
        return LiveStep::Stop;
    }
    if time_up {
        return LiveStep::Stop;
    }
    LiveStep::Show { rotate: window_over }
}

/// How long to wait for a stopped backend to drain: `dumpcap` buffers, so
/// frames captured moments ago may still be in flight through the pipe.
pub const DRAIN_NS: u64 = 5_000_000_000;

/// Whether to wait on for a stopped backend.
pub fn keep_draining(running: bool, waited_ns: u64) -> (r: bool)
    ensures
        r == (running && waited_ns < DRAIN_NS),
{
    running && waited_ns < DRAIN_NS
}

} // verus!
