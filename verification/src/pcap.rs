//! Capture-file decoding for classic pcap and pcapng.
//!
//! Both formats are decoded directly from bytes, fast enough to keep up with
//! a live `dumpcap` pipe at Sampled Values rates. The reader does no I/O of its
//! own: it says how many bytes it wants next and is handed exactly those, so
//! the same code serves a file, a pipe and a buffer in memory, and a whole
//! capture never has to be resident.
use crate::text::decimal;
use vstd::prelude::*;
use vstd::slice::slice_subrange;

verus! {

/// LINKTYPE_ETHERNET. The classifier starts at an Ethernet header, so any
/// other link type would be silently misparsed into nonsense rows.
pub const LINKTYPE_ETHERNET: u32 = 1;

/// Largest frame accepted from a file. Comfortably above any jumbo frame, and
/// low enough that a corrupt or hostile length field cannot drive a huge
/// allocation.
pub const MAX_FRAME_LEN: u32 = 262_144;

pub const PCAP_MAGIC_LE_US: u32 = 0xa1b2_c3d4;

pub const PCAP_MAGIC_LE_NS: u32 = 0xa1b2_3c4d;

pub const PCAP_MAGIC_BE_US: u32 = 0xd4c3_b2a1;

pub const PCAP_MAGIC_BE_NS: u32 = 0x4d3c_b2a1;

pub const PCAPNG_SHB: u32 = 0x0a0d_0d0a;

pub const PCAPNG_BYTE_ORDER: u32 = 0x1a2b_3c4d;

pub const PCAPNG_IDB: u32 = 0x0000_0001;

pub const PCAPNG_PB: u32 = 0x0000_0002;

pub const PCAPNG_SPB: u32 = 0x0000_0003;

pub const PCAPNG_EPB: u32 = 0x0000_0006;

/// Largest pcapng block accepted, for the same reason as [`MAX_FRAME_LEN`].
pub const MAX_BLOCK_LEN: u32 = 16_777_216;

/// How much of a section header's remainder is asked for at once.
pub const SKIP_CHUNK: u32 = 4096;

// ---- Errors ----------------------------------------------------------------------

/// Why a stream cannot be read as a capture.
#[derive(Debug, Clone, Copy)]
pub enum PcapError {
    /// The stream is not a capture we accept.
    NotACapture,
    /// A capture, but not of Ethernet frames.
    UnsupportedLinkType(u32),
    Malformed(&'static str),
}

/// The content of a [`PcapError`].
pub ghost enum PcapErrorView {
    NotACapture,
    UnsupportedLinkType(u32),
    Malformed(Seq<char>),
}

impl View for PcapError {
    type V = PcapErrorView;

    open spec fn view(&self) -> PcapErrorView {
        match *self {
            PcapError::NotACapture => PcapErrorView::NotACapture,
            PcapError::UnsupportedLinkType(n) => PcapErrorView::UnsupportedLinkType(n),
            PcapError::Malformed(what) => PcapErrorView::Malformed(what@),
        }
    }
}

/// The message for an error.
pub open spec fn error_text(e: PcapErrorView) -> Seq<char> {
    match e {
        PcapErrorView::NotACapture =>
            "not a pcap/pcapng file (its header does not carry a capture-file magic number)"@,
        PcapErrorView::UnsupportedLinkType(n) => "unsupported link type "@ + crate::text::dec(
            n as nat,
        ) + "; only Ethernet (link type 1) captures can be classified"@,
        PcapErrorView::Malformed(what) => "malformed capture file: "@ + what,
    }
}

impl PcapError {
    pub fn to_string(&self) -> (r: String)
        ensures
            r@ == error_text(self@),
    {
        match *self {
            PcapError::NotACapture =>
                "not a pcap/pcapng file (its header does not carry a capture-file magic number)".to_owned(),
            PcapError::UnsupportedLinkType(n) => {
                let mut out: String = "unsupported link type ".to_owned();
                out.append(decimal(n as u64).as_str());
                out.append("; only Ethernet (link type 1) captures can be classified");
                out
            },
            PcapError::Malformed(what) => {
                let mut out: String = "malformed capture file: ".to_owned();
                out.append(what);
                out
            },
        }
    }
}

// ---- Byte order --------------------------------------------------------------------

#[derive(Clone, Copy, PartialEq, Eq, Structural, Debug)]
pub enum Endian {
    Little,
    Big,
}

/// The sixteen-bit number at `off`.
pub open spec fn u16_at(e: Endian, d: Seq<u8>, off: int) -> u16 {
    match e {
        Endian::Little => (d[off] + 0x100 * d[off + 1]) as u16,
        Endian::Big => (d[off + 1] + 0x100 * d[off]) as u16,
    }
}

/// The thirty-two-bit number at `off`.
pub open spec fn u32_at(e: Endian, d: Seq<u8>, off: int) -> u32 {
    match e {
        Endian::Little => (d[off] + 0x100 * d[off + 1] + 0x1_0000 * d[off + 2] + 0x100_0000 * d[off
            + 3]) as u32,
        Endian::Big => (d[off + 3] + 0x100 * d[off + 2] + 0x1_0000 * d[off + 1] + 0x100_0000
            * d[off]) as u32,
    }
}

impl Endian {
    pub fn u16(&self, d: &[u8], off: usize) -> (r: u16)
        requires
            off + 2 <= d.len(),
        ensures
            r == u16_at(*self, d@, off as int),
    {
        match *self {
            Endian::Little => d[off] as u16 + 0x100 * d[off + 1] as u16,
            Endian::Big => d[off + 1] as u16 + 0x100 * d[off] as u16,
        }
    }

    pub fn u32(&self, d: &[u8], off: usize) -> (r: u32)
        requires
            off + 4 <= d.len(),
        ensures
            r == u32_at(*self, d@, off as int),
    {
        match *self {
            Endian::Little => d[off] as u32 + 0x100 * d[off + 1] as u32 + 0x1_0000 * d[off
                + 2] as u32 + 0x100_0000 * d[off + 3] as u32,
            Endian::Big => d[off + 3] as u32 + 0x100 * d[off + 2] as u32 + 0x1_0000 * d[off
                + 1] as u32 + 0x100_0000 * d[off] as u32,
        }
    }
}

/// Whether these first bytes are a capture-file header we accept.
pub open spec fn capture_magic(head: Seq<u8>) -> bool {
    let le = u32_at(Endian::Little, head, 0);
    &&& head.len() >= 4
    &&& (le == PCAP_MAGIC_LE_US || le == PCAP_MAGIC_LE_NS || le == PCAP_MAGIC_BE_US || le
        == PCAP_MAGIC_BE_NS || le == PCAPNG_SHB)
}

/// Whether these first bytes are a capture-file header we accept.
///
/// This is a security control as much as a validation step. A general capture
/// library will transparently decompress a gzip-wrapped file with no size cap,
/// so a small crafted `.gz` renamed to `.pcap` could expand into an effectively
/// unbounded stream. Plain pcap and pcapng have no such amplification: bytes
/// read equal bytes on disk, so refusing everything else closes that door
/// without limiting legitimately large captures.
///
/// Always check the real header. Never trust a file extension or a file
/// picker's type filter.
pub fn is_capture_magic(head: &[u8]) -> (r: bool)
    ensures
        r == capture_magic(head@),
{
    if head.len() < 4 {
        return false;
    }
    // The section header's type reads the same in either byte order.
    let le: u32 = Endian::Little.u32(head, 0);
    le == PCAP_MAGIC_LE_US || le == PCAP_MAGIC_LE_NS || le == PCAP_MAGIC_BE_US || le
        == PCAP_MAGIC_BE_NS || le == PCAPNG_SHB
}

// ---- Timestamps ----------------------------------------------------------------------

/// `b` to the power `n`.
pub open spec fn power(b: nat, n: nat) -> nat
    decreases n,
{
    if n == 0 {
        1
    } else {
        b * power(b, (n - 1) as nat)
    }
}

/// Units per second that a pcapng resolution octet stands for: a power of two
/// where its top bit is set, else a power of ten.
pub open spec fn units_per_second(resolution: u8) -> nat {
    if resolution >= 128 {
        power(2, (resolution - 128) as nat)
    } else {
        power(10, resolution as nat)
    }
}

/// A pcapng timestamp in whole nanoseconds. Only a timestamp of zero ticks is
/// zero: any other is at least one nanosecond.
pub open spec fn ticks_to_ns(ticks: u64, resolution: u8) -> u128 {
    let ns = (ticks as nat * 1_000_000_000nat) / units_per_second(resolution);
    if ns == 0 && ticks > 0 {
        1
    } else {
        ns as u128
    }
}

/// A classic pcap timestamp in nanoseconds.
pub open spec fn record_ns(sec: u32, frac: u32, nanos: bool) -> u128 {
    (sec * 1_000_000_000 + frac * (if nanos {
        1int
    } else {
        1000int
    })) as u128
}

proof fn lemma_power_grows(b: nat, n: nat, m: nat)
    requires
        b >= 1,
        n <= m,
    ensures
        1 <= power(b, n) <= power(b, m),
    decreases m,
{
    if n < m {
        lemma_power_grows(b, n, (m - 1) as nat);
        let p = power(b, (m - 1) as nat);
        assert(b * p >= p) by (nonlinear_arith)
            requires
                b >= 1,
                p >= 1,
        ;
    } else if n > 0 {
        lemma_power_grows(b, (n - 1) as nat, (n - 1) as nat);
        let p = power(b, (n - 1) as nat);
        assert(b * p >= 1) by (nonlinear_arith)
            requires
                b >= 1,
                p >= 1,
        ;
    }
}

/// A pcapng timestamp in whole nanoseconds, zero for no ticks only.
pub fn ns_of_ticks(ticks: u64, resolution: u8) -> (r: u128)
    ensures
        r == ticks_to_ns(ticks, resolution),
{
    let scaled: u128 = ticks as u128 * 1_000_000_000u128;
    let (base, exponent): (u128, u8) = if resolution >= 128 {
        (2u128, (resolution - 128) as u8)
    } else {
        (10u128, resolution)
    };
    let mut unit: u128 = 1;
    let mut i: u8 = 0;
    while i < exponent
        invariant
            i <= exponent <= 127,
            base == 2 || base == 10,
            scaled == ticks * 1_000_000_000,
            unit == power(base as nat, i as nat),
            unit <= scaled || i == 0,
            units_per_second(resolution) == power(base as nat, exponent as nat),
        decreases exponent - i,
    {
        let next: u128 = unit * base;
        assert(next == power(base as nat, (i + 1) as nat)) by (nonlinear_arith)
            requires
                next == unit * base,
                unit == power(base as nat, i as nat),
                power(base as nat, (i + 1) as nat) == base as nat * power(base as nat, i as nat),
        ;
        if next > scaled {
            proof {
                lemma_power_grows(base as nat, (i + 1) as nat, exponent as nat);
                let u = units_per_second(resolution);
                assert(scaled as nat / u == 0) by (nonlinear_arith)
                    requires
                        scaled < u,
                ;
            }
            return if ticks > 0 {
                1
            } else {
                0
            };
        }
        unit = next;
        i += 1;
    }
    proof {
        lemma_power_grows(base as nat, 0, exponent as nat);
    }
    let ns: u128 = scaled / unit;
    proof {
        let u = unit as nat;
        assert(scaled as nat / u <= scaled) by (nonlinear_arith)
            requires
                u >= 1,
        ;
    }
    if ns == 0 && ticks > 0 {
        1
    } else {
        ns
    }
}

// ---- The reader: model ------------------------------------------------------------------

/// A pcapng interface: its timestamp resolution octet and its link type.
#[derive(Clone, Copy, PartialEq, Eq, Structural, Debug)]
pub struct IfaceInfo {
    pub resolution: u8,
    pub link_type: u32,
}

/// What a reader is waiting for.
#[derive(Clone, Copy, PartialEq, Eq, Structural, Debug)]
pub enum Phase {
    /// The first four bytes of the stream.
    Magic,
    /// The rest of a classic pcap file header.
    FileHeader,
    /// Length and byte-order magic of a section header block; whether it is
    /// the first of the stream.
    SectionHead(bool),
    /// This much more of a section header block.
    SectionRest(u32),
    /// A classic pcap record header.
    RecordHead,
    /// The bytes of a record.
    RecordBody { incl_len: u32, orig_len: u32, ts_ns: u128 },
    /// The type of the next block.
    BlockType,
    /// The total length of a block of this type.
    BlockLength(u32),
    /// Body and trailing length of a block of this type and body length.
    BlockBody(u32, u32),
}

/// The content of a [`CaptureReader`].
#[verifier::ext_equal]
pub ghost struct ReaderView {
    pub phase: Phase,
    pub endian: Endian,
    /// Whether a classic pcap counts nanoseconds rather than microseconds.
    pub nanos: bool,
    pub ifaces: Seq<IfaceInfo>,
    /// The timestamp of the last pcapng frame that carried one.
    pub ts_ns: u128,
}

/// A frame read from a capture.
#[verifier::ext_equal]
pub ghost struct CapturedView {
    pub data: Seq<u8>,
    pub orig_len: u32,
    pub ts_ns: u128,
}

/// What the next bytes of a stream bring.
pub ghost enum Step {
    /// The stream cannot be read on.
    Fail(PcapErrorView),
    /// No frame yet.
    Quiet(ReaderView),
    /// A frame.
    Frame(ReaderView, CapturedView),
}

/// A reader at the start of a stream.
pub open spec fn at_start() -> ReaderView {
    ReaderView {
        phase: Phase::Magic,
        endian: Endian::Little,
        nanos: false,
        ifaces: Seq::empty(),
        ts_ns: 0,
    }
}

/// Whether a reader waits for something that can come.
pub open spec fn valid_phase(p: Phase) -> bool {
    match p {
        Phase::SectionRest(left) => left > 0,
        Phase::RecordBody { incl_len, .. } => 0 < incl_len <= MAX_FRAME_LEN,
        Phase::BlockBody(_, len) => len <= MAX_BLOCK_LEN,
        _ => true,
    }
}

/// How many bytes a reader wants next.
pub open spec fn wanted(p: Phase) -> nat {
    match p {
        Phase::Magic => 4,
        Phase::FileHeader => 20,
        Phase::SectionHead(_) => 8,
        Phase::SectionRest(left) => if left < SKIP_CHUNK {
            left as nat
        } else {
            SKIP_CHUNK as nat
        },
        Phase::RecordHead => 16,
        Phase::RecordBody { incl_len, .. } => incl_len as nat,
        Phase::BlockType => 4,
        Phase::BlockLength(_) => 4,
        Phase::BlockBody(_, len) => (len + 4) as nat,
    }
}

/// What a stream that ends here was: `None` where it simply ended, which it may
/// do anywhere once its header has been read.
pub open spec fn end_of_stream(p: Phase) -> Option<PcapErrorView> {
    match p {
        Phase::Magic => Some(PcapErrorView::NotACapture),
        Phase::FileHeader => Some(PcapErrorView::Malformed("truncated pcap header"@)),
        Phase::SectionHead(first) => if first {
            Some(PcapErrorView::Malformed("truncated section header block"@))
        } else {
            None
        },
        _ => None,
    }
}

/// The first four bytes decide the format.
pub open spec fn on_magic(v: ReaderView, b: Seq<u8>) -> Step {
    let le = u32_at(Endian::Little, b, 0);
    if le == PCAPNG_SHB {
        Step::Quiet(ReaderView { phase: Phase::SectionHead(true), ..v })
    } else if capture_magic(b) {
        Step::Quiet(
            ReaderView {
                phase: Phase::FileHeader,
                endian: if le == PCAP_MAGIC_LE_US || le == PCAP_MAGIC_LE_NS {
                    Endian::Little
                } else {
                    Endian::Big
                },
                nanos: le == PCAP_MAGIC_LE_NS || le == PCAP_MAGIC_BE_NS,
                ..v
            },
        )
    } else {
        Step::Fail(PcapErrorView::NotACapture)
    }
}

/// Of the rest of a pcap file header only the link type matters.
pub open spec fn on_file_header(v: ReaderView, b: Seq<u8>) -> Step {
    let link_type = u32_at(v.endian, b, 16);
    if link_type != LINKTYPE_ETHERNET {
        Step::Fail(PcapErrorView::UnsupportedLinkType(link_type))
    } else {
        Step::Quiet(ReaderView { phase: Phase::RecordHead, ..v })
    }
}

/// A section header establishes the section's byte order and resets its
/// interfaces; the rest of it is skipped.
pub open spec fn on_section_head(v: ReaderView, b: Seq<u8>) -> Step {
    let little = u32_at(Endian::Little, b, 4) == PCAPNG_BYTE_ORDER;
    let big = u32_at(Endian::Big, b, 4) == PCAPNG_BYTE_ORDER;
    let endian = if little {
        Endian::Little
    } else {
        Endian::Big
    };
    let total = u32_at(endian, b, 0);
    if !little && !big {
        Step::Fail(PcapErrorView::Malformed("bad pcapng byte-order magic"@))
    } else if !(12 <= total <= MAX_BLOCK_LEN) {
        Step::Fail(PcapErrorView::Malformed("implausible section header block length"@))
    } else {
        Step::Quiet(
            ReaderView {
                phase: if total == 12 {
                    Phase::BlockType
                } else {
                    Phase::SectionRest((total - 12) as u32)
                },
                endian,
                ifaces: Seq::empty(),
                ..v
            },
        )
    }
}

/// Skipping a section header's remainder.
pub open spec fn on_section_rest(v: ReaderView, left: u32) -> Step {
    Step::Quiet(
        ReaderView {
            phase: if left <= SKIP_CHUNK {
                Phase::BlockType
            } else {
                Phase::SectionRest((left - SKIP_CHUNK) as u32)
            },
            ..v
        },
    )
}

/// A record header: seconds, fraction, captured and original length.
pub open spec fn on_record_head(v: ReaderView, b: Seq<u8>) -> Step {
    let ts_ns = record_ns(u32_at(v.endian, b, 0), u32_at(v.endian, b, 4), v.nanos);
    let incl_len = u32_at(v.endian, b, 8);
    let orig_len = u32_at(v.endian, b, 12);
    if incl_len > MAX_FRAME_LEN {
        Step::Fail(PcapErrorView::Malformed("record length exceeds the maximum frame size"@))
    } else if incl_len == 0 {
        Step::Frame(v, CapturedView { data: Seq::empty(), orig_len, ts_ns })
    } else {
        Step::Quiet(ReaderView { phase: Phase::RecordBody { incl_len, orig_len, ts_ns }, ..v })
    }
}

/// The type of the next block.
pub open spec fn on_block_type(v: ReaderView, b: Seq<u8>) -> Step {
    let block_type = u32_at(v.endian, b, 0);
    Step::Quiet(
        ReaderView {
            phase: if block_type == PCAPNG_SHB {
                Phase::SectionHead(false)
            } else {
                Phase::BlockLength(block_type)
            },
            ..v
        },
    )
}

/// The total length of a block: header, body and trailing length.
pub open spec fn on_block_length(v: ReaderView, b: Seq<u8>, block_type: u32) -> Step {
    let total = u32_at(v.endian, b, 0);
    if !(12 <= total <= MAX_BLOCK_LEN) {
        Step::Fail(PcapErrorView::Malformed("implausible block length"@))
    } else {
        Step::Quiet(ReaderView { phase: Phase::BlockBody(block_type, (total - 12) as u32), ..v })
    }
}

/// The timestamp resolution given by the options from `off` on: option 9 where
/// there is one, else `found`. Options end at code 0 or where one runs past the
/// body.
pub open spec fn resolution_in(e: Endian, body: Seq<u8>, off: int, found: u8) -> u8
    decreases body.len() + 4 - off,
{
    if off < 0 || off + 4 > body.len() {
        found
    } else {
        let code = u16_at(e, body, off);
        let len = u16_at(e, body, off + 2);
        if code == 0 || off + 4 + len > body.len() {
            found
        } else {
            resolution_in(
                e,
                body,
                off + 4 + padded(len as int),
                if code == 9 && len >= 1 {
                    body[off + 4]
                } else {
                    found
                },
            )
        }
    }
}

/// A length rounded up to a multiple of four.
pub open spec fn padded(len: int) -> int {
    (len + 3) / 4 * 4
}

/// The interface that an interface description block adds, if it is complete.
pub open spec fn interface_in(e: Endian, body: Seq<u8>) -> Seq<IfaceInfo> {
    if body.len() < 8 {
        Seq::empty()
    } else {
        seq![
            IfaceInfo {
                resolution: resolution_in(e, body, 8, 6),
                link_type: u16_at(e, body, 0) as u32,
            },
        ]
    }
}

/// Whether an interface exists and carries Ethernet frames.
pub open spec fn is_ethernet(ifaces: Seq<IfaceInfo>, id: int) -> bool {
    0 <= id < ifaces.len() && ifaces[id].link_type == LINKTYPE_ETHERNET
}

/// The frame in an enhanced or legacy packet block of the given interface.
pub open spec fn stamped_frame(v: ReaderView, body: Seq<u8>, id: int) -> Option<CapturedView> {
    let cap_len = u32_at(v.endian, body, 12);
    if body.len() < 20 || !is_ethernet(v.ifaces, id) || cap_len > MAX_FRAME_LEN || 20 + cap_len
        > body.len() {
        None
    } else {
        Some(
            CapturedView {
                data: body.subrange(20, 20 + cap_len),
                orig_len: u32_at(v.endian, body, 16),
                ts_ns: ticks_to_ns(
                    (u32_at(v.endian, body, 4) * 0x1_0000_0000 + u32_at(v.endian, body, 8)) as u64,
                    v.ifaces[id].resolution,
                ),
            },
        )
    }
}

/// The frame in a simple packet block. It has no interface id, which implies
/// interface 0, and no timestamp, for which the previous one stands.
pub open spec fn simple_frame(v: ReaderView, body: Seq<u8>) -> Option<CapturedView> {
    let orig_len = u32_at(v.endian, body, 0);
    let room = body.len() - 4;
    let cap_len = if orig_len <= room {
        orig_len as int
    } else {
        room
    };
    if body.len() < 4 || !is_ethernet(v.ifaces, 0) {
        None
    } else {
        Some(
            CapturedView {
                data: body.subrange(
                    4,
                    4 + if cap_len <= MAX_FRAME_LEN {
                        cap_len
                    } else {
                        MAX_FRAME_LEN as int
                    },
                ),
                orig_len,
                ts_ns: v.ts_ns,
            },
        )
    }
}

/// The frame that a block carries, if any.
pub open spec fn block_frame(v: ReaderView, block_type: u32, body: Seq<u8>) -> Option<
    CapturedView,
> {
    if block_type == PCAPNG_EPB {
        stamped_frame(v, body, u32_at(v.endian, body, 0) as int)
    } else if block_type == PCAPNG_PB {
        stamped_frame(v, body, u16_at(v.endian, body, 0) as int)
    } else if block_type == PCAPNG_SPB {
        simple_frame(v, body)
    } else {
        None
    }
}

/// A whole block. One that carries no frame (an interface description,
/// metadata, a packet of a non-Ethernet interface) is passed over.
pub open spec fn on_block(v: ReaderView, block_type: u32, body: Seq<u8>) -> Step {
    let next = ReaderView { phase: Phase::BlockType, ..v };
    if block_type == PCAPNG_IDB {
        Step::Quiet(ReaderView { ifaces: v.ifaces + interface_in(v.endian, body), ..next })
    } else {
        match block_frame(v, block_type, body) {
            Some(f) => Step::Frame(ReaderView { ts_ns: f.ts_ns, ..next }, f),
            None => Step::Quiet(next),
        }
    }
}

/// What the wanted bytes bring.
pub open spec fn step(v: ReaderView, b: Seq<u8>) -> Step {
    match v.phase {
        Phase::Magic => on_magic(v, b),
        Phase::FileHeader => on_file_header(v, b),
        Phase::SectionHead(_) => on_section_head(v, b),
        Phase::SectionRest(left) => on_section_rest(v, left),
        Phase::RecordHead => on_record_head(v, b),
        Phase::RecordBody { incl_len, orig_len, ts_ns } => Step::Frame(
            ReaderView { phase: Phase::RecordHead, ..v },
            CapturedView { data: b, orig_len, ts_ns },
        ),
        Phase::BlockType => on_block_type(v, b),
        Phase::BlockLength(t) => on_block_length(v, b, t),
        Phase::BlockBody(t, len) => on_block(v, t, b.take(len as int)),
    }
}

// ---- The reader ----------------------------------------------------------------------------

/// One frame handed out by a [`CaptureReader`].
#[derive(Clone, Copy, Debug)]
pub struct CapturedFrame<'a> {
    pub data: &'a [u8],
    /// Length on the wire, which may exceed `data.len()` under a snaplen.
    pub orig_len: u32,
    /// Capture timestamp in nanoseconds.
    pub ts_ns: u128,
}

impl<'a> View for CapturedFrame<'a> {
    type V = CapturedView;

    open spec fn view(&self) -> CapturedView {
        CapturedView { data: self.data@, orig_len: self.orig_len, ts_ns: self.ts_ns }
    }
}

/// A streaming decoder of Ethernet frames from a capture stream.
///
/// Frames are handed out one at a time, so a whole capture never has to be
/// resident and a live pipe can be consumed indefinitely.
pub struct CaptureReader {
    phase: Phase,
    endian: Endian,
    nanos: bool,
    ifaces: Vec<IfaceInfo>,
    ts_ns: u128,
    pos: u64,
}

impl View for CaptureReader {
    type V = ReaderView;

    closed spec fn view(&self) -> ReaderView {
        ReaderView {
            phase: self.phase,
            endian: self.endian,
            nanos: self.nanos,
            ifaces: self.ifaces@,
            ts_ns: self.ts_ns,
        }
    }
}

impl CaptureReader {
    #[verifier::type_invariant]
    closed spec fn inv(self) -> bool {
        valid_phase(self.phase)
    }

    /// Bytes consumed so far.
    pub closed spec fn consumed(self) -> u64 {
        self.pos
    }

    /// Read the header at the front of a stream and prepare to yield frames.
    pub fn new(stream: &[u8]) -> (r: Result<CaptureReader, PcapError>)
        ensures
            match r {
                Ok(reader) => opening(stream@) == Opening::Open(reader@, reader.consumed() as nat),
                Err(e) => opening(stream@) == Opening::Refused(e@),
            },
    {
        let n: usize = stream.len();
        let mut r: CaptureReader = CaptureReader::start();
        if n < 4 {
            return Err(PcapError::NotACapture);
        }
        let magic: &[u8] = slice_subrange(stream, 0, 4);
        assert(u32_at(Endian::Little, magic@, 0) == u32_at(Endian::Little, stream@, 0));
        r.feed(magic)?;
        if let Phase::FileHeader = r.phase {
            if n < 24 {
                return Err(PcapError::Malformed("truncated pcap header"));
            }
            let rest: &[u8] = slice_subrange(stream, 4, 24);
            assert(forall|e: Endian| u32_at(e, rest@, 16) == u32_at(e, stream@, 20));
            r.feed(rest)?;
        } else {
            if n < 12 {
                return Err(PcapError::Malformed("truncated section header block"));
            }
            let head: &[u8] = slice_subrange(stream, 4, 12);
            assert(forall|e: Endian| u32_at(e, head@, 0) == u32_at(e, stream@, 4));
            assert(forall|e: Endian| u32_at(e, head@, 4) == u32_at(e, stream@, 8));
            r.feed(head)?;
            r.skip_section(n - 12);
        }
        Ok(r)
    }

    /// Skip the rest of a section header, as far as it is there.
    fn skip_section(&mut self, there: usize)
        requires
            old(self).consumed() == 12,
        ensures
            final(self)@ == (ReaderView {
                phase: skipped_to(old(self)@.phase, there as nat),
                ..old(self)@
            }),
            final(self).consumed() == 12 + skipped_of(old(self)@.phase, there as nat),
    {
        if let Phase::SectionRest(left) = self.phase {
            if there < left as usize {
                self.phase = Phase::SectionRest(left - there as u32);
                self.pos = 12 + there as u64;
            } else {
                self.phase = Phase::BlockType;
                self.pos = 12 + left as u64;
            }
        }
    }

    /// A reader at the start of a stream that comes piece by piece.
    pub fn start() -> (r: CaptureReader)
        ensures
            r@ == at_start(),
            r.consumed() == 0,
    {
        CaptureReader {
            phase: Phase::Magic,
            endian: Endian::Little,
            nanos: false,
            ifaces: Vec::new(),
            ts_ns: 0,
            pos: 0,
        }
    }

    /// Bytes consumed so far, for progress reporting.
    pub fn position(&self) -> (r: u64)
        ensures
            r == self.consumed(),
    {
        self.pos
    }

    /// How many bytes the reader wants next: at least one.
    pub fn want(&self) -> (r: usize)
        ensures
            r == wanted(self@.phase),
            r > 0,
    {
        proof {
            use_type_invariant(self);
        }
        match self.phase {
            Phase::Magic => 4,
            Phase::FileHeader => 20,
            Phase::SectionHead(_) => 8,
            Phase::SectionRest(left) => if left < SKIP_CHUNK {
                left as usize
            } else {
                SKIP_CHUNK as usize
            },
            Phase::RecordHead => 16,
            Phase::RecordBody { incl_len, orig_len, ts_ns } => incl_len as usize,
            Phase::BlockType => 4,
            Phase::BlockLength(_) => 4,
            Phase::BlockBody(_, len) => len as usize + 4,
        }
    }

    /// Whether the stream's header has been read and accepted.
    pub fn is_open(&self) -> (r: bool)
        ensures
            r == (end_of_stream(self@.phase) is None),
    {
        match self.phase {
            Phase::Magic => false,
            Phase::FileHeader => false,
            Phase::SectionHead(first) => !first,
            _ => true,
        }
    }

    /// What it means that the stream ended before the wanted bytes came: an
    /// error while its header was still being read, else just the end.
    pub fn end(&self) -> (r: Option<PcapError>)
        ensures
            match r {
                Some(e) => end_of_stream(self@.phase) == Some(e@),
                None => end_of_stream(self@.phase) is None,
            },
    {
        match self.phase {
            Phase::Magic => Some(PcapError::NotACapture),
            Phase::FileHeader => Some(PcapError::Malformed("truncated pcap header")),
            Phase::SectionHead(first) => if first {
                Some(PcapError::Malformed("truncated section header block"))
            } else {
                None
            },
            _ => None,
        }
    }

    /// Take exactly the wanted bytes. Gives the frame they complete, if any;
    /// after an error the reader stands where it stood.
    pub fn feed<'a>(&mut self, bytes: &'a [u8]) -> (r: Result<Option<CapturedFrame<'a>>, PcapError>)
        requires
            bytes@.len() == wanted(old(self)@.phase),
        ensures
            match r {
                Err(e) => step(old(self)@, bytes@) == Step::Fail(e@) && final(self)@ == old(self)@,
                Ok(None) => step(old(self)@, bytes@) == Step::Quiet(final(self)@),
                Ok(Some(f)) => step(old(self)@, bytes@) == Step::Frame(final(self)@, f@),
            },
            final(self).consumed() == (if old(self).consumed() + bytes@.len() <= u64::MAX {
                (old(self).consumed() + bytes@.len()) as u64
            } else {
                u64::MAX
            }),
    {
        proof {
            use_type_invariant(&*self);
        }
        let n: usize = bytes.len();
        self.pos = if n as u64 <= u64::MAX - self.pos {
            self.pos + n as u64
        } else {
            u64::MAX
        };
        match self.phase {
            Phase::Magic => {
                self.take_magic(bytes)?;
                Ok(None)
            },
            Phase::FileHeader => {
                self.take_file_header(bytes)?;
                Ok(None)
            },
            Phase::SectionHead(_) => {
                self.take_section_head(bytes)?;
                Ok(None)
            },
            Phase::SectionRest(left) => {
                self.phase = if left <= SKIP_CHUNK {
                    Phase::BlockType
                } else {
                    Phase::SectionRest(left - SKIP_CHUNK)
                };
                Ok(None)
            },
            Phase::RecordHead => self.take_record_head(bytes),
            Phase::RecordBody { incl_len, orig_len, ts_ns } => {
                self.phase = Phase::RecordHead;
                Ok(Some(CapturedFrame { data: bytes, orig_len, ts_ns }))
            },
            Phase::BlockType => {
                let block_type: u32 = self.endian.u32(bytes, 0);
                self.phase = if block_type == PCAPNG_SHB {
                    Phase::SectionHead(false)
                } else {
                    Phase::BlockLength(block_type)
                };
                Ok(None)
            },
            Phase::BlockLength(block_type) => {
                let total: u32 = self.endian.u32(bytes, 0);
                if total < 12 || total > MAX_BLOCK_LEN {
                    return Err(PcapError::Malformed("implausible block length"));
                }
                self.phase = Phase::BlockBody(block_type, total - 12);
                Ok(None)
            },
            Phase::BlockBody(block_type, len) => {
                let body: &'a [u8] = slice_subrange(bytes, 0, len as usize);
                assert(body@ == bytes@.take(len as int));
                Ok(self.take_block(block_type, body))
            },
        }
    }

    fn take_magic(&mut self, magic: &[u8]) -> (r: Result<(), PcapError>)
        requires
            magic@.len() == 4,
            old(self)@.phase == Phase::Magic,
        ensures
            match r {
                Err(e) => on_magic(old(self)@, magic@) == Step::Fail(e@) && final(self)@ == old(
                    self,
                )@,
                Ok(_) => on_magic(old(self)@, magic@) == Step::Quiet(final(self)@),
            },
            final(self).consumed() == old(self).consumed(),
    {
        if !is_capture_magic(magic) {
            return Err(PcapError::NotACapture);
        }
        let le: u32 = Endian::Little.u32(magic, 0);
        if le == PCAPNG_SHB {
            // The magic was the start of the first section header; finish
            // reading it so the stream sits on a block boundary.
            self.phase = Phase::SectionHead(true);
        } else {
            self.endian = if le == PCAP_MAGIC_LE_US || le == PCAP_MAGIC_LE_NS {
                Endian::Little
            } else {
                Endian::Big
            };
            self.nanos = le == PCAP_MAGIC_LE_NS || le == PCAP_MAGIC_BE_NS;
            self.phase = Phase::FileHeader;
        }
        Ok(())
    }

    fn take_file_header(&mut self, rest: &[u8]) -> (r: Result<(), PcapError>)
        requires
            rest@.len() == 20,
        ensures
            match r {
                Err(e) => on_file_header(old(self)@, rest@) == Step::Fail(e@) && final(self)@
                    == old(self)@,
                Ok(_) => on_file_header(old(self)@, rest@) == Step::Quiet(final(self)@),
            },
            final(self).consumed() == old(self).consumed(),
    {
        let link_type: u32 = self.endian.u32(rest, 16);
        if link_type != LINKTYPE_ETHERNET {
            return Err(PcapError::UnsupportedLinkType(link_type));
        }
        self.phase = Phase::RecordHead;
        Ok(())
    }

    fn take_section_head(&mut self, head: &[u8]) -> (r: Result<(), PcapError>)
        requires
            head@.len() == 8,
        ensures
            match r {
                Err(e) => on_section_head(old(self)@, head@) == Step::Fail(e@) && final(self)@
                    == old(self)@,
                Ok(_) => on_section_head(old(self)@, head@) == Step::Quiet(final(self)@),
            },
            final(self).consumed() == old(self).consumed(),
    {
        let endian: Endian = if Endian::Little.u32(head, 4) == PCAPNG_BYTE_ORDER {
            Endian::Little
        } else if Endian::Big.u32(head, 4) == PCAPNG_BYTE_ORDER {
            Endian::Big
        } else {
            return Err(PcapError::Malformed("bad pcapng byte-order magic"));
        };
        let total: u32 = endian.u32(head, 0);
        if total < 12 || total > MAX_BLOCK_LEN {
            return Err(PcapError::Malformed("implausible section header block length"));
        }
        // 12 bytes are read (type, length, byte-order magic); version, section
        // length, options and trailer are skipped.
        self.phase = if total == 12 {
            Phase::BlockType
        } else {
            Phase::SectionRest(total - 12)
        };
        self.endian = endian;
        // A new section restarts interface numbering.
        self.ifaces = Vec::new();
        Ok(())
    }

    fn take_record_head<'a>(&mut self, hdr: &'a [u8]) -> (r: Result<
        Option<CapturedFrame<'a>>,
        PcapError,
    >)
        requires
            hdr@.len() == 16,
            old(self)@.phase == Phase::RecordHead,
        ensures
            match r {
                Err(e) => on_record_head(old(self)@, hdr@) == Step::Fail(e@) && final(self)@ == old(
                    self,
                )@,
                Ok(None) => on_record_head(old(self)@, hdr@) == Step::Quiet(final(self)@),
                Ok(Some(f)) => on_record_head(old(self)@, hdr@) == Step::Frame(final(self)@, f@),
            },
            final(self).consumed() == old(self).consumed(),
    {
        let sec: u64 = self.endian.u32(hdr, 0) as u64;
        let frac: u64 = self.endian.u32(hdr, 4) as u64;
        let incl_len: u32 = self.endian.u32(hdr, 8);
        let orig_len: u32 = self.endian.u32(hdr, 12);
        let ts_ns: u128 = (sec * 1_000_000_000 + frac * (if self.nanos {
            1u64
        } else {
            1000u64
        })) as u128;
        if incl_len > MAX_FRAME_LEN {
            return Err(PcapError::Malformed("record length exceeds the maximum frame size"));
        }
        if incl_len == 0 {
            let data: &'a [u8] = slice_subrange(hdr, 0, 0);
            assert(data@ =~= Seq::<u8>::empty());
            return Ok(Some(CapturedFrame { data, orig_len, ts_ns }));
        }
        self.phase = Phase::RecordBody { incl_len, orig_len, ts_ns };
        Ok(None)
    }

    fn take_block<'a>(&mut self, block_type: u32, body: &'a [u8]) -> (r: Option<CapturedFrame<'a>>)
        ensures
            match r {
                None => on_block(old(self)@, block_type, body@) == Step::Quiet(final(self)@),
                Some(f) => on_block(old(self)@, block_type, body@) == Step::Frame(
                    final(self)@,
                    f@,
                ),
            },
            final(self).consumed() == old(self).consumed(),
    {
        self.phase = Phase::BlockType;
        if block_type == PCAPNG_IDB {
            self.add_interface(body);
            return None;
        }
        let frame: Option<CapturedFrame<'a>> = if block_type == PCAPNG_EPB && body.len() >= 20 {
            self.stamped(body, self.endian.u32(body, 0) as usize)
        } else if block_type == PCAPNG_PB && body.len() >= 20 {
            self.stamped(body, self.endian.u16(body, 0) as usize)
        } else if block_type == PCAPNG_SPB && body.len() >= 4 {
            self.simple(body)
        } else {
            None
        };
        if let Some(f) = frame {
            self.ts_ns = f.ts_ns;
        }
        frame
    }

    fn add_interface(&mut self, body: &[u8])
        ensures
            final(self)@ == (ReaderView {
                ifaces: old(self)@.ifaces + interface_in(old(self)@.endian, body@),
                ..old(self)@
            }),
            final(self).consumed() == old(self).consumed(),
    {
        proof {
            use_type_invariant(&*self);
        }
        if body.len() < 8 {
            assert(self@.ifaces + interface_in(self@.endian, body@) =~= self@.ifaces);
            return;
        }
        let link_type: u32 = self.endian.u16(body, 0) as u32;
        let resolution: u8 = self.read_resolution(body);
        let mut ifaces: Vec<IfaceInfo> = Vec::new();
        std::mem::swap(&mut self.ifaces, &mut ifaces);
        ifaces.push(IfaceInfo { resolution, link_type });
        self.ifaces = ifaces;
        assert(self@.ifaces =~= old(self)@.ifaces + interface_in(old(self)@.endian, body@));
    }

    /// if_tsresol (option code 9) overrides the default of microseconds.
    fn read_resolution(&self, body: &[u8]) -> (r: u8)
        requires
            body@.len() >= 8,
        ensures
            r == resolution_in(self@.endian, body@, 8, 6),
    {
        let n: usize = body.len();
        let mut found: u8 = 6;
        let mut off: usize = 8;
        while off <= n && n - off >= 4
            invariant
                n == body@.len(),
                n == body.len(),
                resolution_in(self@.endian, body@, 8, 6) == resolution_in(
                    self@.endian,
                    body@,
                    off as int,
                    found,
                ),
            decreases n + 4 - off,
        {
            let code: u16 = self.endian.u16(body, off);
            let len: usize = self.endian.u16(body, off + 2) as usize;
            let start: usize = off + 4;
            if code == 0 || len > n - start {
                return found;
            }
            if code == 9 && len >= 1 {
                found = body[start];
            }
            // Option values are padded to a 4-byte boundary.
            let padding: usize = (len + 3) / 4 * 4;
            if padding > n - start {
                assert(resolution_in(self@.endian, body@, start + padding, found) == found);
                return found;
            }
            off = start + padding;
        }
        found
    }

    /// The frame in an enhanced or legacy packet block.
    fn stamped<'a>(&self, body: &'a [u8], id: usize) -> (r: Option<CapturedFrame<'a>>)
        requires
            body@.len() >= 20,
        ensures
            match r {
                Some(f) => stamped_frame(self@, body@, id as int) == Some(f@),
                None => stamped_frame(self@, body@, id as int) is None,
            },
    {
        let n: usize = body.len();
        let ts_high: u64 = self.endian.u32(body, 4) as u64;
        let ts_low: u64 = self.endian.u32(body, 8) as u64;
        let cap_len: u32 = self.endian.u32(body, 12);
        let orig_len: u32 = self.endian.u32(body, 16);
        if id >= self.ifaces.len() || self.ifaces[id].link_type != LINKTYPE_ETHERNET {
            return None;
        }
        if cap_len > MAX_FRAME_LEN || cap_len as usize > n - 20 {
            return None;
        }
        let ticks: u64 = ts_high * 0x1_0000_0000 + ts_low;
        let data: &'a [u8] = slice_subrange(body, 20, 20 + cap_len as usize);
        Some(
            CapturedFrame {
                data,
                orig_len,
                ts_ns: ns_of_ticks(ticks, self.ifaces[id].resolution),
            },
        )
    }

    /// The frame in a simple packet block. It carries no timestamp; reusing
    /// the previous one keeps the capture's overall span monotonic.
    fn simple<'a>(&self, body: &'a [u8]) -> (r: Option<CapturedFrame<'a>>)
        requires
            body@.len() >= 4,
        ensures
            match r {
                Some(f) => simple_frame(self@, body@) == Some(f@),
                None => simple_frame(self@, body@) is None,
            },
    {
        let n: usize = body.len();
        if self.ifaces.len() == 0 || self.ifaces[0].link_type != LINKTYPE_ETHERNET {
            return None;
        }
        let orig_len: u32 = self.endian.u32(body, 0);
        let room: usize = n - 4;
        let kept: usize = if orig_len as u64 <= room as u64 {
            orig_len as usize
        } else {
            room
        };
        let cap_len: usize = if kept <= MAX_FRAME_LEN as usize {
            kept
        } else {
            MAX_FRAME_LEN as usize
        };
        let data: &'a [u8] = slice_subrange(body, 4, 4 + cap_len);
        Some(CapturedFrame { data, orig_len, ts_ns: self.ts_ns })
    }
}

// ---- Opening a stream ----------------------------------------------------------------------

/// What the front of a stream comes to.
pub ghost enum Opening {
    /// It is none that can be read.
    Refused(PcapErrorView),
    /// A reader behind the header, and the bytes that the header took.
    Open(ReaderView, nat),
}

/// How much of a section header's remainder can be skipped.
pub open spec fn skipped_of(p: Phase, there: nat) -> nat {
    match p {
        Phase::SectionRest(left) => if there < left {
            there
        } else {
            left as nat
        },
        _ => 0,
    }
}

/// Where a reader stands once that is skipped: between blocks, unless the
/// stream ends inside the section header.
pub open spec fn skipped_to(p: Phase, there: nat) -> Phase {
    match p {
        Phase::SectionRest(left) => if there < left {
            Phase::SectionRest((left - there) as u32)
        } else {
            Phase::BlockType
        },
        _ => p,
    }
}

/// Opening a pcapng stream: a section header tells its byte order and its own
/// length, and is skipped as a whole.
pub open spec fn opening_section(s: Seq<u8>) -> Opening {
    let little = u32_at(Endian::Little, s, 8) == PCAPNG_BYTE_ORDER;
    let big = u32_at(Endian::Big, s, 8) == PCAPNG_BYTE_ORDER;
    let endian = if little {
        Endian::Little
    } else {
        Endian::Big
    };
    let total = u32_at(endian, s, 4);
    if s.len() < 12 {
        Opening::Refused(PcapErrorView::Malformed("truncated section header block"@))
    } else if !little && !big {
        Opening::Refused(PcapErrorView::Malformed("bad pcapng byte-order magic"@))
    } else if !(12 <= total <= MAX_BLOCK_LEN) {
        Opening::Refused(PcapErrorView::Malformed("implausible section header block length"@))
    } else if s.len() < total {
        Opening::Open(
            ReaderView {
                phase: Phase::SectionRest((total - s.len()) as u32),
                endian,
                ..at_start()
            },
            s.len(),
        )
    } else {
        Opening::Open(ReaderView { phase: Phase::BlockType, endian, ..at_start() }, total as nat)
    }
}

/// Opening a stream. Its first four bytes tell the format; a pcap stream has to
/// carry Ethernet frames.
pub open spec fn opening(s: Seq<u8>) -> Opening {
    let le = u32_at(Endian::Little, s, 0);
    let endian = if le == PCAP_MAGIC_LE_US || le == PCAP_MAGIC_LE_NS {
        Endian::Little
    } else {
        Endian::Big
    };
    let link_type = u32_at(endian, s, 20);
    if !capture_magic(s) {
        Opening::Refused(PcapErrorView::NotACapture)
    } else if le == PCAPNG_SHB {
        opening_section(s)
    } else if s.len() < 24 {
        Opening::Refused(PcapErrorView::Malformed("truncated pcap header"@))
    } else if link_type != LINKTYPE_ETHERNET {
        Opening::Refused(PcapErrorView::UnsupportedLinkType(link_type))
    } else {
        Opening::Open(
            ReaderView {
                phase: Phase::RecordHead,
                endian,
                nanos: le == PCAP_MAGIC_LE_NS || le == PCAP_MAGIC_BE_NS,
                ..at_start()
            },
            24,
        )
    }
}

} // verus!
