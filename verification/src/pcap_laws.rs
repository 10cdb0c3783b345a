//! What reading a whole capture stream gives, and what holds of it: captures
//! written in either format read back as the frames they were written from, a
//! cut stream gives the frames before the cut, and no stream gives more bytes
//! than it has.
use crate::pcap;
use crate::pcap::{
    Endian, Phase, LINKTYPE_ETHERNET, MAX_BLOCK_LEN, MAX_FRAME_LEN, PCAPNG_BYTE_ORDER, PCAPNG_EPB,
    PCAPNG_IDB, PCAPNG_SHB, PCAP_MAGIC_LE_NS, PCAP_MAGIC_LE_US, SKIP_CHUNK,
};
use vstd::prelude::*;

verus! {

// ---- Whole streams ---------------------------------------------------------------

/// The frames a stream gives, and why it stopped where it did not just end.
#[verifier::ext_equal]
pub ghost struct Reading {
    pub frames: Seq<pcap::CapturedView>,
    pub error: Option<pcap::PcapErrorView>,
}

/// What a reader gets out of the rest of a stream, by taking the wanted bytes
/// as long as there are enough.
pub open spec fn reading(v: pcap::ReaderView, rest: Seq<u8>) -> Reading
    decreases rest.len(),
{
    let w = pcap::wanted(v.phase);
    if w == 0 || rest.len() < w {
        Reading { frames: Seq::empty(), error: pcap::end_of_stream(v.phase) }
    } else {
        match pcap::step(v, rest.take(w as int)) {
            pcap::Step::Fail(e) => Reading { frames: Seq::empty(), error: Some(e) },
            pcap::Step::Quiet(next) => reading(next, rest.skip(w as int)),
            pcap::Step::Frame(next, f) => {
                let later = reading(next, rest.skip(w as int));
                Reading { frames: seq![f] + later.frames, error: later.error }
            },
        }
    }
}

/// What a whole stream gives.
pub open spec fn capture_in(stream: Seq<u8>) -> Reading {
    reading(pcap::at_start(), stream)
}

/// The data bytes of all frames.
pub open spec fn data_in(frames: Seq<pcap::CapturedView>) -> nat
    decreases frames.len(),
{
    if frames.len() == 0 {
        0
    } else {
        frames[0].data.len() + data_in(frames.skip(1))
    }
}

/// Feeding the wanted bytes takes them off the front of the stream.
pub proof fn law_feeding_reads_the_stream(v: pcap::ReaderView, bytes: Seq<u8>, rest: Seq<u8>)
    requires
        bytes.len() == pcap::wanted(v.phase),
        bytes.len() > 0,
    ensures
        reading(v, bytes + rest) == (match pcap::step(v, bytes) {
            pcap::Step::Fail(e) => Reading { frames: Seq::empty(), error: Some(e) },
            pcap::Step::Quiet(next) => reading(next, rest),
            pcap::Step::Frame(next, f) => Reading {
                frames: seq![f] + reading(next, rest).frames,
                error: reading(next, rest).error,
            },
        }),
{
    let w = bytes.len() as int;
    assert((bytes + rest).take(w) =~= bytes);
    assert((bytes + rest).skip(w) =~= rest);
}

/// A step leaves a valid phase, and once a stream is open it stays open.
proof fn lemma_step(v: pcap::ReaderView, b: Seq<u8>)
    requires
        pcap::valid_phase(v.phase),
        b.len() == pcap::wanted(v.phase),
    ensures
        b.len() > 0,
        match pcap::step(v, b) {
            pcap::Step::Fail(e) => true,
            pcap::Step::Quiet(next) => pcap::valid_phase(next.phase) && (pcap::end_of_stream(
                v.phase,
            ) is None ==> pcap::end_of_stream(next.phase) is None),
            pcap::Step::Frame(next, f) => pcap::valid_phase(next.phase) && pcap::end_of_stream(
                next.phase,
            ) is None && f.data.len() <= b.len() && f.data.len() <= MAX_FRAME_LEN,
        },
{
}

/// No amplification: the frames hold no more bytes than the stream, and none
/// exceeds the maximum frame size.
pub proof fn law_frames_fit_the_stream(v: pcap::ReaderView, rest: Seq<u8>)
    requires
        pcap::valid_phase(v.phase),
    ensures
        data_in(reading(v, rest).frames) <= rest.len(),
        forall|i: int|
            0 <= i < reading(v, rest).frames.len() ==> (#[trigger] reading(
                v,
                rest,
            ).frames[i]).data.len() <= MAX_FRAME_LEN,
    decreases rest.len(),
{
    let w = pcap::wanted(v.phase) as int;
    if w > 0 && rest.len() >= w {
        let b = rest.take(w);
        let later = rest.skip(w);
        lemma_step(v, b);
        match pcap::step(v, b) {
            pcap::Step::Fail(e) => {},
            pcap::Step::Quiet(next) => {
                law_frames_fit_the_stream(next, later);
            },
            pcap::Step::Frame(next, f) => {
                law_frames_fit_the_stream(next, later);
                let frames = reading(next, later).frames;
                assert((seq![f] + frames).skip(1) =~= frames);
                assert forall|i: int| 0 <= i < (seq![f] + frames).len() implies (#[trigger] (seq![f]
                    + frames)[i]).data.len() <= MAX_FRAME_LEN by {
                    if i > 0 {
                        assert((seq![f] + frames)[i] == frames[i - 1]);
                    }
                }
            },
        }
    }
}

/// A cut stream ends cleanly: it gives the first frames of the whole stream,
/// and once its header has been read the cut itself is no error.
pub proof fn law_truncation_ends_cleanly(v: pcap::ReaderView, rest: Seq<u8>, n: int)
    requires
        pcap::valid_phase(v.phase),
        0 <= n <= rest.len(),
    ensures
        reading(v, rest.take(n)).frames.len() <= reading(v, rest).frames.len(),
        reading(v, rest.take(n)).frames == reading(v, rest).frames.take(
            reading(v, rest.take(n)).frames.len() as int,
        ),
        pcap::end_of_stream(v.phase) is None ==> reading(v, rest.take(n)).error is None || reading(
            v,
            rest.take(n),
        ).error == reading(v, rest).error,
    decreases rest.len(),
{
    let w = pcap::wanted(v.phase) as int;
    let short = rest.take(n);
    if w > 0 && n >= w {
        let b = rest.take(w);
        let later = rest.skip(w);
        assert(short.take(w) =~= b);
        assert(short.skip(w) =~= later.take(n - w));
        lemma_step(v, b);
        match pcap::step(v, b) {
            pcap::Step::Fail(e) => {
                assert(reading(v, short).frames =~= reading(v, rest).frames.take(0));
            },
            pcap::Step::Quiet(next) => {
                law_truncation_ends_cleanly(next, later, n - w);
            },
            pcap::Step::Frame(next, f) => {
                law_truncation_ends_cleanly(next, later, n - w);
                let all = reading(next, later).frames;
                let some = reading(next, later.take(n - w)).frames;
                assert(seq![f] + some =~= (seq![f] + all).take(1 + some.len() as int));
            },
        }
    } else {
        assert(reading(v, short).frames =~= reading(v, rest).frames.take(0));
    }
}

/// Anything without a capture magic is refused before a frame is read.
pub proof fn law_only_captures_are_read(stream: Seq<u8>)
    requires
        !pcap::capture_magic(stream),
    ensures
        capture_in(stream).frames.len() == 0,
        capture_in(stream).error == Some(pcap::PcapErrorView::NotACapture),
{
    if stream.len() >= 4 {
        let head = stream.take(4);
        assert(pcap::u32_at(Endian::Little, head, 0) == pcap::u32_at(Endian::Little, stream, 0));
    }
}

// ---- Writing -----------------------------------------------------------------------

/// A sixteen-bit number in the given byte order.
#[verifier::opaque]
pub open spec fn put16(e: Endian, x: u16) -> Seq<u8> {
    let lo = (x % 0x100) as u8;
    let hi = (x / 0x100) as u8;
    match e {
        Endian::Little => seq![lo, hi],
        Endian::Big => seq![hi, lo],
    }
}

/// A thirty-two-bit number in the given byte order.
#[verifier::opaque]
pub open spec fn put32(e: Endian, x: u32) -> Seq<u8> {
    let b0 = (x % 0x100) as u8;
    let b1 = (x / 0x100 % 0x100) as u8;
    let b2 = (x / 0x1_0000 % 0x100) as u8;
    let b3 = (x / 0x100_0000) as u8;
    match e {
        Endian::Little => seq![b0, b1, b2, b3],
        Endian::Big => seq![b3, b2, b1, b0],
    }
}

pub broadcast proof fn lemma_put16_len(e: Endian, x: u16)
    ensures
        (#[trigger] put16(e, x)).len() == 2,
{
    reveal(put16);
}

pub broadcast proof fn lemma_put32_len(e: Endian, x: u32)
    ensures
        (#[trigger] put32(e, x)).len() == 4,
{
    reveal(put32);
}

pub proof fn lemma_put16(e: Endian, x: u16, d: Seq<u8>, off: int)
    requires
        0 <= off,
        off + 2 <= d.len(),
        d.subrange(off, off + 2) == put16(e, x),
    ensures
        pcap::u16_at(e, d, off) == x,
{
    reveal(put16);
    let s = d.subrange(off, off + 2);
    assert(s[0] == d[off] && s[1] == d[off + 1]);
}

pub proof fn lemma_put32(e: Endian, x: u32, d: Seq<u8>, off: int)
    requires
        0 <= off,
        off + 4 <= d.len(),
        d.subrange(off, off + 4) == put32(e, x),
    ensures
        pcap::u32_at(e, d, off) == x,
{
    reveal(put32);
    let s = d.subrange(off, off + 4);
    assert(s[0] == d[off] && s[1] == d[off + 1] && s[2] == d[off + 2] && s[3] == d[off + 3]);
    assert(x == (x % 0x100) + 0x100 * (x / 0x100 % 0x100) + 0x1_0000 * (x / 0x1_0000 % 0x100)
        + 0x100_0000 * (x / 0x100_0000));
}

// ---- Classic pcap --------------------------------------------------------------------

/// A classic pcap record.
pub ghost struct PcapRecord {
    pub sec: u32,
    pub frac: u32,
    pub orig_len: u32,
    pub data: Seq<u8>,
}

/// The header of a classic pcap file: magic, sixteen bytes of version, zone,
/// accuracy and snap length, and the link type.
pub open spec fn pcap_header(e: Endian, nanos: bool, details: Seq<u8>, link_type: u32) -> Seq<u8> {
    put32(
        e,
        if nanos {
            PCAP_MAGIC_LE_NS
        } else {
            PCAP_MAGIC_LE_US
        },
    ) + (details + put32(e, link_type))
}

/// A record as it stands in a file.
pub open spec fn pcap_record(e: Endian, r: PcapRecord) -> Seq<u8> {
    put32(e, r.sec) + put32(e, r.frac) + put32(e, r.data.len() as u32) + put32(e, r.orig_len)
        + r.data
}

/// Records as they stand in a file.
pub open spec fn pcap_records(e: Endian, rs: Seq<PcapRecord>) -> Seq<u8>
    decreases rs.len(),
{
    if rs.len() == 0 {
        Seq::empty()
    } else {
        pcap_record(e, rs[0]) + pcap_records(e, rs.skip(1))
    }
}

/// The frame a record holds.
pub open spec fn record_frame(r: PcapRecord, nanos: bool) -> pcap::CapturedView {
    pcap::CapturedView {
        data: r.data,
        orig_len: r.orig_len,
        ts_ns: pcap::record_ns(r.sec, r.frac, nanos),
    }
}

/// A reader between records.
pub open spec fn between_records(e: Endian, nanos: bool) -> pcap::ReaderView {
    pcap::ReaderView {
        phase: Phase::RecordHead,
        endian: e,
        nanos,
        ifaces: Seq::empty(),
        ts_ns: 0,
    }
}

proof fn lemma_record(e: Endian, nanos: bool, r: PcapRecord, rest: Seq<u8>)
    requires
        r.data.len() <= MAX_FRAME_LEN,
    ensures
        reading(between_records(e, nanos), pcap_record(e, r) + rest) == (Reading {
            frames: seq![record_frame(r, nanos)] + reading(between_records(e, nanos), rest).frames,
            error: reading(between_records(e, nanos), rest).error,
        }),
{
    broadcast use lemma_put32_len;

    let v = between_records(e, nanos);
    let len = r.data.len() as u32;
    let head = put32(e, r.sec) + put32(e, r.frac) + put32(e, len) + put32(e, r.orig_len);
    assert(head.subrange(0, 4) =~= put32(e, r.sec));
    assert(head.subrange(4, 8) =~= put32(e, r.frac));
    assert(head.subrange(8, 12) =~= put32(e, len));
    assert(head.subrange(12, 16) =~= put32(e, r.orig_len));
    lemma_put32(e, r.sec, head, 0);
    lemma_put32(e, r.frac, head, 4);
    lemma_put32(e, len, head, 8);
    lemma_put32(e, r.orig_len, head, 12);
    assert(pcap_record(e, r) + rest =~= head + (r.data + rest));
    law_feeding_reads_the_stream(v, head, r.data + rest);
    if len > 0 {
        let body = pcap::ReaderView {
            phase: Phase::RecordBody {
                incl_len: len,
                orig_len: r.orig_len,
                ts_ns: pcap::record_ns(r.sec, r.frac, nanos),
            },
            ..v
        };
        law_feeding_reads_the_stream(body, r.data, rest);
    } else {
        assert(r.data =~= Seq::<u8>::empty());
        assert(r.data + rest =~= rest);
    }
}

proof fn lemma_records(e: Endian, nanos: bool, rs: Seq<PcapRecord>)
    requires
        forall|i: int| 0 <= i < rs.len() ==> (#[trigger] rs[i]).data.len() <= MAX_FRAME_LEN,
    ensures
        reading(between_records(e, nanos), pcap_records(e, rs)) == (Reading {
            frames: Seq::new(rs.len(), |i: int| record_frame(rs[i], nanos)),
            error: None,
        }),
    decreases rs.len(),
{
    let wanted = Seq::new(rs.len(), |i: int| record_frame(rs[i], nanos));
    if rs.len() == 0 {
        assert(wanted =~= Seq::empty());
    } else {
        let rest = rs.skip(1);
        assert forall|i: int| 0 <= i < rest.len() implies (#[trigger] rest[i]).data.len()
            <= MAX_FRAME_LEN by {
            assert(rest[i] == rs[i + 1]);
        }
        lemma_records(e, nanos, rest);
        lemma_record(e, nanos, rs[0], pcap_records(e, rest));
        assert(wanted =~= seq![record_frame(rs[0], nanos)] + Seq::new(
            rest.len(),
            |i: int| record_frame(rest[i], nanos),
        ));
    }
}

proof fn lemma_magic(e: Endian, nanos: bool)
    ensures
        pcap::u32_at(
            Endian::Little,
            put32(
                e,
                if nanos {
                    PCAP_MAGIC_LE_NS
                } else {
                    PCAP_MAGIC_LE_US
                },
            ),
            0,
        ) == (match (e, nanos) {
            (Endian::Little, false) => pcap::PCAP_MAGIC_LE_US,
            (Endian::Little, true) => pcap::PCAP_MAGIC_LE_NS,
            (Endian::Big, false) => pcap::PCAP_MAGIC_BE_US,
            (Endian::Big, true) => pcap::PCAP_MAGIC_BE_NS,
        }),
{
    reveal(put32);
    match (e, nanos) {
        (Endian::Little, false) => {
            assert(put32(e, PCAP_MAGIC_LE_US) =~= seq![0xD4u8, 0xC3, 0xB2, 0xA1]);
        },
        (Endian::Little, true) => {
            assert(put32(e, PCAP_MAGIC_LE_NS) =~= seq![0x4Du8, 0x3C, 0xB2, 0xA1]);
        },
        (Endian::Big, false) => {
            assert(put32(e, PCAP_MAGIC_LE_US) =~= seq![0xA1u8, 0xB2, 0xC3, 0xD4]);
        },
        (Endian::Big, true) => {
            assert(put32(e, PCAP_MAGIC_LE_NS) =~= seq![0xA1u8, 0xB2, 0x3C, 0x4D]);
        },
    }
}

proof fn lemma_pcap_header(
    e: Endian,
    nanos: bool,
    details: Seq<u8>,
    link_type: u32,
    rest: Seq<u8>,
)
    requires
        details.len() == 16,
    ensures
        capture_in(pcap_header(e, nanos, details, link_type) + rest) == (if link_type
            == LINKTYPE_ETHERNET {
            reading(between_records(e, nanos), rest)
        } else {
            Reading {
                frames: Seq::empty(),
                error: Some(pcap::PcapErrorView::UnsupportedLinkType(link_type)),
            }
        }),
{
    broadcast use lemma_put32_len;

    let start = pcap::at_start();
    let m = if nanos {
        PCAP_MAGIC_LE_NS
    } else {
        PCAP_MAGIC_LE_US
    };
    let magic = put32(e, m);
    let header = details + put32(e, link_type);
    assert(pcap_header(e, nanos, details, link_type) + rest =~= magic + (header + rest));
    assert(magic.subrange(0, 4) =~= put32(e, m));
    lemma_put32(e, m, magic, 0);
    lemma_magic(e, nanos);
    law_feeding_reads_the_stream(start, magic, header + rest);
    let opened = pcap::ReaderView { phase: Phase::FileHeader, endian: e, nanos, ..start };
    assert(header.subrange(16, 20) =~= put32(e, link_type));
    lemma_put32(e, link_type, header, 16);
    law_feeding_reads_the_stream(opened, header, rest);
}

/// A classic Ethernet pcap opens, whatever follows its header.
pub proof fn law_a_pcap_opens(e: Endian, nanos: bool, details: Seq<u8>, rest: Seq<u8>)
    requires
        details.len() == 16,
    ensures
        pcap::opening(pcap_header(e, nanos, details, LINKTYPE_ETHERNET) + rest)
            == pcap::Opening::Open(between_records(e, nanos), 24),
{
    broadcast use lemma_put32_len;

    let m = if nanos {
        PCAP_MAGIC_LE_NS
    } else {
        PCAP_MAGIC_LE_US
    };
    let magic = put32(e, m);
    let link_type = put32(e, LINKTYPE_ETHERNET);
    let s = pcap_header(e, nanos, details, LINKTYPE_ETHERNET) + rest;
    assert(s.len() >= 24);
    assert(s.subrange(0, 4) =~= magic);
    assert(s.subrange(20, 24) =~= link_type);
    lemma_magic(e, nanos);
    assert(s[0] == magic[0] && s[1] == magic[1] && s[2] == magic[2] && s[3] == magic[3]);
    assert(pcap::u32_at(Endian::Little, s, 0) == pcap::u32_at(Endian::Little, magic, 0));
    lemma_put32(e, LINKTYPE_ETHERNET, s, 20);
}

/// A classic pcap of Ethernet frames, in either byte order and either
/// resolution, reads back as the frames it was written from.
pub proof fn law_pcap_reads_back(
    e: Endian,
    nanos: bool,
    details: Seq<u8>,
    records: Seq<PcapRecord>,
)
    requires
        details.len() == 16,
        forall|i: int| 0 <= i < records.len() ==> (#[trigger] records[i]).data.len()
            <= MAX_FRAME_LEN,
    ensures
        capture_in(
            pcap_header(e, nanos, details, LINKTYPE_ETHERNET) + pcap_records(e, records),
        ) == (Reading {
            frames: Seq::new(records.len(), |i: int| record_frame(records[i], nanos)),
            error: None,
        }),
{
    lemma_pcap_header(e, nanos, details, LINKTYPE_ETHERNET, pcap_records(e, records));
    lemma_records(e, nanos, records);
}

/// A record that is cut gives nothing, and no error.
proof fn lemma_cut_record(e: Endian, nanos: bool, r: PcapRecord, n: int)
    requires
        r.data.len() <= MAX_FRAME_LEN,
        0 <= n < pcap_record(e, r).len(),
    ensures
        reading(between_records(e, nanos), pcap_record(e, r).take(n)) == (Reading {
            frames: Seq::empty(),
            error: None,
        }),
{
    broadcast use lemma_put32_len;

    if n >= 16 {
        let v = between_records(e, nanos);
        let len = r.data.len() as u32;
        let head = put32(e, r.sec) + put32(e, r.frac) + put32(e, len) + put32(e, r.orig_len);
        assert(head.subrange(8, 12) =~= put32(e, len));
        lemma_put32(e, len, head, 8);
        assert(pcap_record(e, r).take(n) =~= head + r.data.take(n - 16));
        law_feeding_reads_the_stream(v, head, r.data.take(n - 16));
    }
}

/// Whether a reading of records cut after `n` bytes gives those that lie wholly
/// before the cut, and no error.
pub open spec fn gives_whole_records(
    cut: Reading,
    e: Endian,
    nanos: bool,
    rs: Seq<PcapRecord>,
    n: int,
) -> bool {
    let k = cut.frames.len() as int;
    &&& cut.error is None
    &&& k <= rs.len()
    &&& pcap_records(e, rs.take(k)).len() <= n
    &&& k < rs.len() ==> n < pcap_records(e, rs.take(k + 1)).len()
    &&& forall|i: int| 0 <= i < k ==> (#[trigger] cut.frames[i]) == record_frame(rs[i], nanos)
}

/// The length of records is that of the first and of the others.
proof fn lemma_records_len(e: Endian, rs: Seq<PcapRecord>, k: int)
    requires
        0 < k <= rs.len(),
    ensures
        pcap_records(e, rs.take(k)).len() == pcap_record(e, rs[0]).len() + pcap_records(
            e,
            rs.skip(1).take(k - 1),
        ).len(),
{
    assert(rs.take(k).skip(1) =~= rs.skip(1).take(k - 1));
}

proof fn lemma_one_more_record(
    later: Reading,
    e: Endian,
    nanos: bool,
    rs: Seq<PcapRecord>,
    n: int,
)
    requires
        rs.len() > 0,
        gives_whole_records(later, e, nanos, rs.skip(1), n - pcap_record(e, rs[0]).len()),
    ensures
        gives_whole_records(
            Reading {
                frames: seq![record_frame(rs[0], nanos)] + later.frames,
                error: later.error,
            },
            e,
            nanos,
            rs,
            n,
        ),
{
    let k = later.frames.len() as int;
    let all = seq![record_frame(rs[0], nanos)] + later.frames;
    lemma_records_len(e, rs, k + 1);
    if k + 1 < rs.len() {
        lemma_records_len(e, rs, k + 2);
    }
    assert forall|i: int| 0 <= i < all.len() implies (#[trigger] all[i]) == record_frame(
        rs[i],
        nanos,
    ) by {
        if i > 0 {
            assert(all[i] == later.frames[i - 1]);
            assert(rs.skip(1)[i - 1] == rs[i]);
        }
    }
}

proof fn lemma_no_record(e: Endian, nanos: bool, rs: Seq<PcapRecord>, n: int)
    requires
        0 <= n,
        rs.len() > 0 ==> n < pcap_record(e, rs[0]).len(),
    ensures
        gives_whole_records(Reading { frames: Seq::empty(), error: None }, e, nanos, rs, n),
{
    assert(rs.take(0) =~= Seq::empty());
    if rs.len() > 0 {
        lemma_records_len(e, rs, 1);
    }
}

/// Of records cut anywhere, those that are whole are read.
proof fn lemma_cut_records(e: Endian, nanos: bool, rs: Seq<PcapRecord>, n: int)
    requires
        forall|i: int| 0 <= i < rs.len() ==> (#[trigger] rs[i]).data.len() <= MAX_FRAME_LEN,
        0 <= n <= pcap_records(e, rs).len(),
    ensures
        gives_whole_records(
            reading(between_records(e, nanos), pcap_records(e, rs).take(n)),
            e,
            nanos,
            rs,
            n,
        ),
    decreases rs.len(),
{
    let v = between_records(e, nanos);
    let all = pcap_records(e, rs);
    if rs.len() == 0 {
        lemma_no_record(e, nanos, rs, n);
    } else {
        let first = pcap_record(e, rs[0]);
        let rest = rs.skip(1);
        let others = pcap_records(e, rest);
        assert(all == first + others);
        if n < first.len() {
            assert(all.take(n) =~= first.take(n));
            lemma_cut_record(e, nanos, rs[0], n);
            lemma_no_record(e, nanos, rs, n);
        } else {
            let m = n - first.len();
            assert forall|i: int| 0 <= i < rest.len() implies (#[trigger] rest[i]).data.len()
                <= MAX_FRAME_LEN by {
                assert(rest[i] == rs[i + 1]);
            }
            lemma_cut_records(e, nanos, rest, m);
            assert(all.take(n) =~= first + others.take(m));
            lemma_record(e, nanos, rs[0], others.take(m));
            lemma_one_more_record(reading(v, others.take(m)), e, nanos, rs, n);
        }
    }
}

/// A classic pcap cut anywhere past its header ends without an error, giving
/// the frames of the records that lie wholly before the cut, and no others.
pub proof fn law_cut_pcap_reads_without_error(
    e: Endian,
    nanos: bool,
    details: Seq<u8>,
    records: Seq<PcapRecord>,
    n: int,
)
    requires
        details.len() == 16,
        forall|i: int| 0 <= i < records.len() ==> (#[trigger] records[i]).data.len()
            <= MAX_FRAME_LEN,
        24 <= n <= 24 + pcap_records(e, records).len(),
    ensures
        ({
            let file = pcap_header(e, nanos, details, LINKTYPE_ETHERNET) + pcap_records(e, records);
            gives_whole_records(capture_in(file.take(n)), e, nanos, records, n - 24)
        }),
{
    broadcast use lemma_put32_len;

    let header = pcap_header(e, nanos, details, LINKTYPE_ETHERNET);
    let all = pcap_records(e, records);
    let file = header + all;
    assert(header.len() == 24);
    assert(file.take(n) =~= header + all.take(n - 24));
    lemma_pcap_header(e, nanos, details, LINKTYPE_ETHERNET, all.take(n - 24));
    lemma_cut_records(e, nanos, records, n - 24);
}

/// A classic pcap of any other link type is refused, whatever follows its
/// header.
pub proof fn law_other_link_types_are_refused(
    e: Endian,
    nanos: bool,
    details: Seq<u8>,
    link_type: u32,
    rest: Seq<u8>,
)
    requires
        details.len() == 16,
        link_type != LINKTYPE_ETHERNET,
    ensures
        capture_in(pcap_header(e, nanos, details, link_type) + rest) == (Reading {
            frames: Seq::empty(),
            error: Some(pcap::PcapErrorView::UnsupportedLinkType(link_type)),
        }),
{
    lemma_pcap_header(e, nanos, details, link_type, rest);
}

// ---- pcapng -------------------------------------------------------------------------

/// A section header block; `rest` is its version, section length, options and
/// trailing length.
pub open spec fn ng_section(e: Endian, rest: Seq<u8>) -> Seq<u8> {
    put32(e, PCAPNG_SHB) + (put32(e, (12 + rest.len()) as u32) + put32(e, PCAPNG_BYTE_ORDER)) + rest
}

/// Any other block.
pub open spec fn ng_block(e: Endian, block_type: u32, body: Seq<u8>) -> Seq<u8> {
    let total = put32(e, (12 + body.len()) as u32);
    put32(e, block_type) + total + (body + total)
}

/// The body of an interface description: link type, six bytes of reserved
/// field and snap length, and options.
pub open spec fn ng_interface(e: Endian, link_type: u16, details: Seq<u8>, options: Seq<u8>) -> Seq<
    u8,
> {
    put16(e, link_type) + (details + options)
}

/// A packet of the first interface.
pub ghost struct NgPacket {
    pub ts_high: u32,
    pub ts_low: u32,
    pub orig_len: u32,
    pub data: Seq<u8>,
    /// Padding and options behind the data.
    pub tail: Seq<u8>,
}

/// The body of an enhanced packet block.
pub open spec fn ng_packet(e: Endian, p: NgPacket) -> Seq<u8> {
    put32(e, 0) + put32(e, p.ts_high) + put32(e, p.ts_low) + put32(e, p.data.len() as u32) + put32(
        e,
        p.orig_len,
    ) + (p.data + p.tail)
}

/// Packets as they stand in a file.
pub open spec fn ng_packets(e: Endian, ps: Seq<NgPacket>) -> Seq<u8>
    decreases ps.len(),
{
    if ps.len() == 0 {
        Seq::empty()
    } else {
        ng_block(e, PCAPNG_EPB, ng_packet(e, ps[0])) + ng_packets(e, ps.skip(1))
    }
}

/// The frame a packet holds, under the interface's timestamp resolution.
pub open spec fn packet_frame(p: NgPacket, resolution: u8) -> pcap::CapturedView {
    pcap::CapturedView {
        data: p.data,
        orig_len: p.orig_len,
        ts_ns: pcap::ticks_to_ns((p.ts_high * 0x1_0000_0000 + p.ts_low) as u64, resolution),
    }
}

/// Whether a packet fits the limits on frames and blocks.
pub open spec fn fits(p: NgPacket) -> bool {
    p.data.len() <= MAX_FRAME_LEN && 32 + p.data.len() + p.tail.len() <= MAX_BLOCK_LEN
}

pub proof fn lemma_section_rest(v: pcap::ReaderView, left: u32, skipped: Seq<u8>, rest: Seq<u8>)
    requires
        v.phase == Phase::SectionRest(left),
        left > 0,
        skipped.len() == left,
    ensures
        reading(v, skipped + rest) == reading(
            (pcap::ReaderView { phase: Phase::BlockType, ..v }),
            rest,
        ),
    decreases left,
{
    if left <= SKIP_CHUNK {
        law_feeding_reads_the_stream(v, skipped, rest);
    } else {
        let n = SKIP_CHUNK as int;
        let now = skipped.take(n);
        let later = skipped.skip(n);
        let next = pcap::ReaderView { phase: Phase::SectionRest((left - SKIP_CHUNK) as u32), ..v };
        assert(skipped + rest =~= now + (later + rest));
        law_feeding_reads_the_stream(v, now, later + rest);
        lemma_section_rest(next, (left - SKIP_CHUNK) as u32, later, rest);
        assert((pcap::ReaderView { phase: Phase::BlockType, ..next }) == (pcap::ReaderView {
            phase: Phase::BlockType,
            ..v
        }));
    }
}

/// A stream that ends inside a section header simply ends.
proof fn lemma_section_cut(v: pcap::ReaderView, left: u32, rest: Seq<u8>)
    requires
        v.phase == Phase::SectionRest(left),
        rest.len() < left,
    ensures
        reading(v, rest) == (Reading { frames: Seq::empty(), error: None }),
    decreases rest.len(),
{
    if left > SKIP_CHUNK && rest.len() >= SKIP_CHUNK {
        let next = pcap::ReaderView { phase: Phase::SectionRest((left - SKIP_CHUNK) as u32), ..v };
        lemma_section_cut(next, (left - SKIP_CHUNK) as u32, rest.skip(SKIP_CHUNK as int));
    }
}

/// Opening a stream takes its header off the front: what is read from there on
/// is what the stream holds, and a stream that is refused holds no frame and
/// gives the same error.
pub proof fn law_opening_reads_the_header(s: Seq<u8>)
    ensures
        match pcap::opening(s) {
            pcap::Opening::Refused(e) => capture_in(s) == (Reading {
                frames: Seq::empty(),
                error: Some(e),
            }),
            pcap::Opening::Open(v, n) => {
                &&& 0 < n <= s.len()
                &&& pcap::end_of_stream(v.phase) is None
                &&& capture_in(s) == reading(v, s.skip(n as int))
            },
        },
{
    let start = pcap::at_start();
    if !pcap::capture_magic(s) {
        law_only_captures_are_read(s);
        assert(capture_in(s).frames =~= Seq::empty());
    } else {
        let magic = s.take(4);
        let rest = s.skip(4);
        assert(magic + rest =~= s);
        assert(pcap::u32_at(Endian::Little, magic, 0) == pcap::u32_at(Endian::Little, s, 0));
        law_feeding_reads_the_stream(start, magic, rest);
        if pcap::u32_at(Endian::Little, s, 0) == PCAPNG_SHB {
            lemma_opening_section(s);
        } else if s.len() >= 24 {
            let v = pcap::step(start, magic)->Quiet_0;
            let header = s.subrange(4, 24);
            assert(header + s.skip(24) =~= rest);
            assert(pcap::u32_at(v.endian, header, 16) == pcap::u32_at(v.endian, s, 20));
            law_feeding_reads_the_stream(v, header, s.skip(24));
        }
    }
}

proof fn lemma_opening_section(s: Seq<u8>)
    requires
        s.len() >= 4,
    ensures
        ({
            let v = pcap::ReaderView { phase: Phase::SectionHead(true), ..pcap::at_start() };
            match pcap::opening_section(s) {
                pcap::Opening::Refused(e) => reading(v, s.skip(4)) == (Reading {
                    frames: Seq::empty(),
                    error: Some(e),
                }),
                pcap::Opening::Open(w, n) => {
                    &&& 0 < n <= s.len()
                    &&& pcap::end_of_stream(w.phase) is None
                    &&& reading(v, s.skip(4)) == reading(w, s.skip(n as int))
                },
            }
        }),
{
    let v = pcap::ReaderView { phase: Phase::SectionHead(true), ..pcap::at_start() };
    if s.len() >= 12 {
        let head = s.subrange(4, 12);
        let after = s.skip(12);
        assert(head + after =~= s.skip(4));
        assert(forall|e: Endian| pcap::u32_at(e, head, 0) == pcap::u32_at(e, s, 4));
        assert(forall|e: Endian| pcap::u32_at(e, head, 4) == pcap::u32_at(e, s, 8));
        law_feeding_reads_the_stream(v, head, after);
        if let pcap::Opening::Open(w, n) = pcap::opening_section(s) {
            let total = pcap::u32_at(w.endian, s, 4);
            let skipping = pcap::ReaderView {
                phase: Phase::SectionRest((total - 12) as u32),
                endian: w.endian,
                ..pcap::at_start()
            };
            if s.len() < total {
                lemma_section_cut(skipping, (total - 12) as u32, after);
                lemma_section_cut(w, (total - s.len()) as u32, s.skip(n as int));
            } else if total > 12 {
                let more = s.subrange(12, total as int);
                assert(more + s.skip(total as int) =~= after);
                lemma_section_rest(skipping, (total - 12) as u32, more, s.skip(total as int));
                assert((pcap::ReaderView { phase: Phase::BlockType, ..skipping }) == w);
            }
        }
    }
}

/// A reader between blocks.
pub open spec fn between_blocks(e: Endian, ifaces: Seq<pcap::IfaceInfo>, ts_ns: u128) -> pcap::ReaderView {
    pcap::ReaderView { phase: Phase::BlockType, endian: e, nanos: false, ifaces, ts_ns }
}

pub proof fn lemma_section(e: Endian, more: Seq<u8>, rest: Seq<u8>)
    requires
        12 + more.len() <= MAX_BLOCK_LEN,
    ensures
        capture_in(ng_section(e, more) + rest) == reading(
            between_blocks(e, Seq::empty(), 0),
            rest,
        ),
{
    broadcast use lemma_put32_len;

    let start = pcap::at_start();
    let total = (12 + more.len()) as u32;
    let magic = put32(e, PCAPNG_SHB);
    let head = put32(e, total) + put32(e, PCAPNG_BYTE_ORDER);
    assert(ng_section(e, more) + rest =~= magic + (head + (more + rest)));
    lemma_section_magic(e);
    law_feeding_reads_the_stream(start, magic, head + (more + rest));
    let opened = pcap::ReaderView { phase: Phase::SectionHead(true), ..start };
    assert(head.subrange(0, 4) =~= put32(e, total));
    assert(head.subrange(4, 8) =~= put32(e, PCAPNG_BYTE_ORDER));
    lemma_put32(e, total, head, 0);
    lemma_put32(e, PCAPNG_BYTE_ORDER, head, 4);
    lemma_byte_order(e, head);
    law_feeding_reads_the_stream(opened, head, more + rest);
    if more.len() > 0 {
        let skipping = pcap::ReaderView {
            phase: Phase::SectionRest((total - 12) as u32),
            ..between_blocks(e, Seq::empty(), 0)
        };
        lemma_section_rest(skipping, (total - 12) as u32, more, rest);
    } else {
        assert(more + rest =~= rest);
    }
}

/// A section header's type reads the same in either byte order.
pub proof fn lemma_section_magic(e: Endian)
    ensures
        pcap::u32_at(Endian::Little, put32(e, PCAPNG_SHB), 0) == PCAPNG_SHB,
{
    reveal(put32);
}

/// The byte-order magic does not read as itself in the wrong byte order.
pub proof fn lemma_byte_order(e: Endian, head: Seq<u8>)
    requires
        head.len() == 8,
        head.subrange(4, 8) == put32(e, PCAPNG_BYTE_ORDER),
    ensures
        (pcap::u32_at(Endian::Little, head, 4) == PCAPNG_BYTE_ORDER) <==> e == Endian::Little,
{
    reveal(put32);
    let s = head.subrange(4, 8);
    assert(s[0] == head[4] && s[1] == head[5] && s[2] == head[6] && s[3] == head[7]);
}

pub proof fn lemma_block(v: pcap::ReaderView, block_type: u32, body: Seq<u8>, rest: Seq<u8>)
    requires
        v.phase == Phase::BlockType,
        block_type != PCAPNG_SHB,
        12 + body.len() <= MAX_BLOCK_LEN,
    ensures
        reading(v, ng_block(v.endian, block_type, body) + rest) == (match pcap::on_block(
            v,
            block_type,
            body,
        ) {
            pcap::Step::Fail(e) => Reading { frames: Seq::empty(), error: Some(e) },
            pcap::Step::Quiet(next) => reading(next, rest),
            pcap::Step::Frame(next, f) => Reading {
                frames: seq![f] + reading(next, rest).frames,
                error: reading(next, rest).error,
            },
        }),
{
    broadcast use lemma_put32_len;

    let e = v.endian;
    let len = body.len() as u32;
    let payload = body + put32(e, (12 + body.len()) as u32);
    let inside = pcap::ReaderView { phase: Phase::BlockBody(block_type, len), ..v };
    lemma_block_head(v, block_type, body, rest);
    law_feeding_reads_the_stream(inside, payload, rest);
    assert(payload.take(len as int) =~= body);
    lemma_on_block_ignores_phase(v, inside, block_type, body);
}

proof fn lemma_block_head(v: pcap::ReaderView, block_type: u32, body: Seq<u8>, rest: Seq<u8>)
    requires
        v.phase == Phase::BlockType,
        block_type != PCAPNG_SHB,
        12 + body.len() <= MAX_BLOCK_LEN,
    ensures
        reading(v, ng_block(v.endian, block_type, body) + rest) == reading(
            (pcap::ReaderView { phase: Phase::BlockBody(block_type, body.len() as u32), ..v }),
            body + put32(v.endian, (12 + body.len()) as u32) + rest,
        ),
{
    broadcast use lemma_put32_len;

    let e = v.endian;
    let total = put32(e, (12 + body.len()) as u32);
    let kind = put32(e, block_type);
    let payload = body + total;
    assert(ng_block(e, block_type, body) + rest =~= kind + (total + (payload + rest)));
    assert(kind.subrange(0, 4) =~= kind);
    lemma_put32(e, block_type, kind, 0);
    let sized = pcap::ReaderView { phase: Phase::BlockLength(block_type), ..v };
    assert(pcap::step(v, kind) == pcap::Step::Quiet(sized));
    law_feeding_reads_the_stream(v, kind, total + (payload + rest));
    assert(total.subrange(0, 4) =~= total);
    lemma_put32(e, (12 + body.len()) as u32, total, 0);
    let inside = pcap::ReaderView {
        phase: Phase::BlockBody(block_type, body.len() as u32),
        ..v
    };
    assert(pcap::step(sized, total) == pcap::Step::Quiet(inside));
    law_feeding_reads_the_stream(sized, total, payload + rest);
}

/// Which phase a whole block is taken in makes no difference.
proof fn lemma_on_block_ignores_phase(
    a: pcap::ReaderView,
    b: pcap::ReaderView,
    block_type: u32,
    body: Seq<u8>,
)
    requires
        a == (pcap::ReaderView { phase: a.phase, ..b }),
    ensures
        pcap::on_block(a, block_type, body) == pcap::on_block(b, block_type, body),
{
    assert(pcap::block_frame(a, block_type, body) == pcap::block_frame(b, block_type, body));
}

proof fn lemma_packet(
    e: Endian,
    ifaces: Seq<pcap::IfaceInfo>,
    ts_ns: u128,
    p: NgPacket,
    rest: Seq<u8>,
)
    requires
        pcap::is_ethernet(ifaces, 0),
        fits(p),
    ensures
        ({
            let f = packet_frame(p, ifaces[0].resolution);
            let later = reading(between_blocks(e, ifaces, f.ts_ns), rest);
            reading(
                between_blocks(e, ifaces, ts_ns),
                ng_block(e, PCAPNG_EPB, ng_packet(e, p)) + rest,
            ) == (Reading { frames: seq![f] + later.frames, error: later.error })
        }),
{
    broadcast use lemma_put32_len;

    let v = between_blocks(e, ifaces, ts_ns);
    let body = ng_packet(e, p);
    let len = p.data.len() as u32;
    let f = packet_frame(p, ifaces[0].resolution);
    assert(body.subrange(0, 4) =~= put32(e, 0));
    assert(body.subrange(4, 8) =~= put32(e, p.ts_high));
    assert(body.subrange(8, 12) =~= put32(e, p.ts_low));
    assert(body.subrange(12, 16) =~= put32(e, len));
    assert(body.subrange(16, 20) =~= put32(e, p.orig_len));
    lemma_put32(e, 0, body, 0);
    lemma_put32(e, p.ts_high, body, 4);
    lemma_put32(e, p.ts_low, body, 8);
    lemma_put32(e, len, body, 12);
    lemma_put32(e, p.orig_len, body, 16);
    assert(body.subrange(20, 20 + len) =~= p.data);
    assert(pcap::stamped_frame(v, body, 0) == Some(f));
    lemma_block(v, PCAPNG_EPB, body, rest);
    assert((pcap::ReaderView { ts_ns: f.ts_ns, ..v }) == between_blocks(e, ifaces, f.ts_ns));
}

proof fn lemma_packets(e: Endian, ifaces: Seq<pcap::IfaceInfo>, ts_ns: u128, ps: Seq<NgPacket>)
    requires
        pcap::is_ethernet(ifaces, 0),
        forall|i: int| 0 <= i < ps.len() ==> fits(#[trigger] ps[i]),
    ensures
        reading(between_blocks(e, ifaces, ts_ns), ng_packets(e, ps)) == (Reading {
            frames: Seq::new(ps.len(), |i: int| packet_frame(ps[i], ifaces[0].resolution)),
            error: None,
        }),
    decreases ps.len(),
{
    let res = ifaces[0].resolution;
    let wanted = Seq::new(ps.len(), |i: int| packet_frame(ps[i], res));
    if ps.len() == 0 {
        assert(wanted =~= Seq::empty());
    } else {
        let rest = ps.skip(1);
        assert forall|i: int| 0 <= i < rest.len() implies fits(#[trigger] rest[i]) by {
            assert(rest[i] == ps[i + 1]);
        }
        let f = packet_frame(ps[0], res);
        assert(fits(ps[0]));
        lemma_packets(e, ifaces, f.ts_ns, rest);
        lemma_packet(e, ifaces, ts_ns, ps[0], ng_packets(e, rest));
        assert(wanted =~= seq![f] + Seq::new(rest.len(), |i: int| packet_frame(rest[i], res)));
    }
}

/// A pcapng section of one Ethernet interface and enhanced packet blocks, in
/// either byte order, reads back as the frames it was written from; their
/// timestamps follow the resolution that the interface's options give.
pub proof fn law_pcapng_reads_back(
    e: Endian,
    section: Seq<u8>,
    details: Seq<u8>,
    options: Seq<u8>,
    packets: Seq<NgPacket>,
)
    requires
        12 + section.len() <= MAX_BLOCK_LEN,
        details.len() == 6,
        20 + options.len() <= MAX_BLOCK_LEN,
        forall|i: int| 0 <= i < packets.len() ==> fits(#[trigger] packets[i]),
    ensures
        ({
            let interface = ng_interface(e, LINKTYPE_ETHERNET as u16, details, options);
            let resolution = pcap::resolution_in(e, interface, 8, 6);
            capture_in(
                ng_section(e, section) + (ng_block(e, PCAPNG_IDB, interface) + ng_packets(
                    e,
                    packets,
                )),
            ) == (Reading {
                frames: Seq::new(packets.len(), |i: int| packet_frame(packets[i], resolution)),
                error: None,
            })
        }),
{
    broadcast use lemma_put16_len;

    let interface = ng_interface(e, LINKTYPE_ETHERNET as u16, details, options);
    let resolution = pcap::resolution_in(e, interface, 8, 6);
    let info = pcap::IfaceInfo { resolution, link_type: LINKTYPE_ETHERNET };
    let rest = ng_packets(e, packets);
    let v = between_blocks(e, Seq::empty(), 0);
    lemma_section(e, section, ng_block(e, PCAPNG_IDB, interface) + rest);
    assert(interface.subrange(0, 2) =~= put16(e, LINKTYPE_ETHERNET as u16));
    lemma_put16(e, LINKTYPE_ETHERNET as u16, interface, 0);
    lemma_block(v, PCAPNG_IDB, interface, rest);
    assert(v.ifaces + pcap::interface_in(e, interface) =~= seq![info]);
    lemma_packets(e, seq![info], 0, packets);
}

} // verus!
