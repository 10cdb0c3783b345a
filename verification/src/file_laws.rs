//! What capture files mean, seen from the bytes that were written.
use crate::classify;
use crate::counts;
use crate::filter;
use crate::load;
use crate::parse::Protocol;
use crate::pcap;
use crate::pcap::{Endian, Phase};
use crate::pcap_laws;
use crate::stats;
use crate::text;
use vstd::prelude::*;

verus! {

// ---- Numbers in a file ----------------------------------------------------------------------

/// Two bytes of a number, the less significant one first in a little-endian
/// file.
#[verifier::opaque]
pub open spec fn half(e: Endian, x: u16) -> Seq<u8> {
    match e {
        Endian::Little => seq![(x % 256) as u8, (x / 256) as u8],
        Endian::Big => seq![(x / 256) as u8, (x % 256) as u8],
    }
}

/// Four bytes of a number, the least significant one first in a little-endian
/// file.
#[verifier::opaque]
pub open spec fn word(e: Endian, x: u32) -> Seq<u8> {
    let a = (x % 256) as u8;
    let b = (x / 256 % 256) as u8;
    let c = (x / 65536 % 256) as u8;
    let d = (x / 16777216) as u8;
    match e {
        Endian::Little => seq![a, b, c, d],
        Endian::Big => seq![d, c, b, a],
    }
}

proof fn lemma_half(e: Endian, x: u16)
    ensures
        pcap_laws::put16(e, x) == half(e, x),
{
    reveal(pcap_laws::put16);
    reveal(half);
    assert(pcap_laws::put16(e, x) =~= half(e, x));
}

broadcast proof fn lemma_half_len(e: Endian, x: u16)
    ensures
        (#[trigger] half(e, x)).len() == 2,
{
    reveal(half);
}

broadcast proof fn lemma_word_len(e: Endian, x: u32)
    ensures
        (#[trigger] word(e, x)).len() == 4,
{
    reveal(word);
}

proof fn lemma_word(e: Endian, x: u32)
    ensures
        pcap_laws::put32(e, x) == word(e, x),
{
    reveal(pcap_laws::put32);
    reveal(word);
    assert(pcap_laws::put32(e, x) =~= word(e, x));
}

/// A stream is a capture exactly if it opens with one of five signatures.
pub proof fn law_captures_have_a_signature(head: Seq<u8>)
    ensures
        pcap::capture_magic(head) <==> head.len() >= 4 && {
            let s = seq![head[0], head[1], head[2], head[3]];
            ||| s == seq![0xD4u8, 0xC3u8, 0xB2u8, 0xA1u8]
            ||| s == seq![0x4Du8, 0x3Cu8, 0xB2u8, 0xA1u8]
            ||| s == seq![0xA1u8, 0xB2u8, 0xC3u8, 0xD4u8]
            ||| s == seq![0xA1u8, 0xB2u8, 0x3Cu8, 0x4Du8]
            ||| s == seq![0x0Au8, 0x0Du8, 0x0Du8, 0x0Au8]
        },
{
    if head.len() >= 4 {
        let s = seq![head[0], head[1], head[2], head[3]];
        lemma_four(head, s, 0xD4, 0xC3, 0xB2, 0xA1);
        lemma_four(head, s, 0x4D, 0x3C, 0xB2, 0xA1);
        lemma_four(head, s, 0xA1, 0xB2, 0xC3, 0xD4);
        lemma_four(head, s, 0xA1, 0xB2, 0x3C, 0x4D);
        lemma_four(head, s, 0x0A, 0x0D, 0x0D, 0x0A);
    }
}

/// The bytes of a number are determined by it.
proof fn lemma_digits(a: u8, b: u8, c: u8, d: u8)
    ensures
        ({
            let x = a + 256 * b + 65536 * c + 16777216 * d;
            &&& x % 256 == a
            &&& x / 256 % 256 == b
            &&& x / 65536 % 256 == c
            &&& x / 16777216 == d
        }),
{
    let y = b + 256 * c + 65536 * d;
    let z = c + 256 * d;
    let x = a + 256 * y;
    assert(x / 256 == y && x % 256 == a);
    assert(y / 256 == z && y % 256 == b);
    assert(z / 256 == d && z % 256 == c);
    assert(x / 65536 == z);
    assert(x / 16777216 == d);
}

proof fn lemma_four(head: Seq<u8>, s: Seq<u8>, a: u8, b: u8, c: u8, d: u8)
    requires
        head.len() >= 4,
        s == seq![head[0], head[1], head[2], head[3]],
    ensures
        s == seq![a, b, c, d] <==> pcap::u32_at(Endian::Little, head, 0) == a + 256 * b + 65536 * c
            + 16777216 * d,
{
    if s == seq![a, b, c, d] {
        assert(s[0] == a && s[1] == b && s[2] == c && s[3] == d);
    }
    if pcap::u32_at(Endian::Little, head, 0) == a + 256 * b + 65536 * c + 16777216 * d {
        lemma_digits(head[0], head[1], head[2], head[3]);
        lemma_digits(a, b, c, d);
        assert(s =~= seq![a, b, c, d]);
    }
}

// ---- Classic pcap ---------------------------------------------------------------------------

/// A record of a classic pcap.
pub open spec fn record_bytes(e: Endian, r: pcap_laws::PcapRecord) -> Seq<u8> {
    word(e, r.sec) + word(e, r.frac) + word(e, r.data.len() as u32) + word(e, r.orig_len) + r.data
}

/// The records of a classic pcap.
pub open spec fn records_bytes(e: Endian, rs: Seq<pcap_laws::PcapRecord>) -> Seq<u8>
    decreases rs.len(),
{
    if rs.len() == 0 {
        Seq::empty()
    } else {
        record_bytes(e, rs[0]) + records_bytes(e, rs.skip(1))
    }
}

/// The header of a classic pcap: signature, sixteen bytes, and the link type.
pub open spec fn header_bytes(e: Endian, nanos: bool, details: Seq<u8>, link_type: u32) -> Seq<u8> {
    word(
        e,
        if nanos {
            0xA1B2_3C4Du32
        } else {
            0xA1B2_C3D4u32
        },
    ) + details + word(e, link_type)
}

proof fn lemma_records_bytes(e: Endian, rs: Seq<pcap_laws::PcapRecord>)
    ensures
        pcap_laws::pcap_records(e, rs) == records_bytes(e, rs),
    decreases rs.len(),
{
    broadcast use {lemma_half_len, lemma_word_len};

    if rs.len() > 0 {
        let r = rs[0];
        lemma_word(e, r.sec);
        lemma_word(e, r.frac);
        lemma_word(e, r.data.len() as u32);
        lemma_word(e, r.orig_len);
        lemma_records_bytes(e, rs.skip(1));
    }
}

proof fn lemma_header_bytes(e: Endian, nanos: bool, details: Seq<u8>, link_type: u32)
    ensures
        pcap_laws::pcap_header(e, nanos, details, link_type) == header_bytes(
            e,
            nanos,
            details,
            link_type,
        ),
{
    broadcast use {lemma_half_len, lemma_word_len};

    lemma_word(e, 0xA1B2_3C4D);
    lemma_word(e, 0xA1B2_C3D4);
    lemma_word(e, link_type);
    assert(pcap_laws::pcap_header(e, nanos, details, link_type) =~= header_bytes(
        e,
        nanos,
        details,
        link_type,
    ));
}

/// The frames of a classic pcap of link type 1 are those of its records: their
/// bytes, the length they had on the wire, and as time the seconds and the
/// fraction, which counts microseconds or, by the signature, nanoseconds.
pub proof fn law_a_pcap_file_reads_back(
    e: Endian,
    nanos: bool,
    details: Seq<u8>,
    rs: Seq<pcap_laws::PcapRecord>,
)
    requires
        details.len() == 16,
        forall|i: int| 0 <= i < rs.len() ==> (#[trigger] rs[i]).data.len() <= 262144,
    ensures
        ({
            let r = pcap_laws::capture_in(
                header_bytes(e, nanos, details, 1) + records_bytes(e, rs),
            );
            &&& r.error is None
            &&& r.frames.len() == rs.len()
            &&& forall|i: int|
                0 <= i < rs.len() ==> (#[trigger] r.frames[i]).data == rs[i].data
                    && r.frames[i].orig_len == rs[i].orig_len && r.frames[i].ts_ns == (if nanos {
                    rs[i].sec * 1_000_000_000 + rs[i].frac
                } else {
                    rs[i].sec * 1_000_000_000 + rs[i].frac * 1000
                })
        }),
{
    lemma_header_bytes(e, nanos, details, 1);
    lemma_records_bytes(e, rs);
    pcap_laws::law_pcap_reads_back(e, nanos, details, rs);
}

/// The same instant reads the same, whether written in microseconds or in
/// nanoseconds, and in either byte order.
pub proof fn law_an_instant_reads_the_same(
    a: Endian,
    b: Endian,
    details: Seq<u8>,
    micro: Seq<pcap_laws::PcapRecord>,
    nano: Seq<pcap_laws::PcapRecord>,
)
    requires
        details.len() == 16,
        micro.len() == nano.len(),
        forall|i: int|
            0 <= i < micro.len() ==> (#[trigger] micro[i]).data.len() <= 262144 && micro[i].data
                == nano[i].data && micro[i].orig_len == nano[i].orig_len && micro[i].sec
                == nano[i].sec && micro[i].frac * 1000 == nano[i].frac,
    ensures
        pcap_laws::capture_in(header_bytes(a, false, details, 1) + records_bytes(a, micro)).frames
            == pcap_laws::capture_in(
            header_bytes(b, true, details, 1) + records_bytes(b, nano),
        ).frames,
{
    assert forall|i: int| 0 <= i < nano.len() implies (#[trigger] nano[i]).data.len()
        <= 262144 by {
        assert(micro[i].data == nano[i].data);
    }
    law_a_pcap_file_reads_back(a, false, details, micro);
    law_a_pcap_file_reads_back(b, true, details, nano);
    let x = pcap_laws::capture_in(
        header_bytes(a, false, details, 1) + records_bytes(a, micro),
    ).frames;
    let y = pcap_laws::capture_in(header_bytes(b, true, details, 1) + records_bytes(b, nano)).frames;
    assert forall|i: int| 0 <= i < x.len() implies x[i] == y[i] by {
        assert(micro[i].frac * 1000 == nano[i].frac);
        assert(x[i].data == y[i].data && x[i].orig_len == y[i].orig_len && x[i].ts_ns
            == y[i].ts_ns);
    }
    assert(x =~= y);
}

/// A classic pcap of another link type is refused with that link type.
pub proof fn law_only_ethernet_is_read(
    e: Endian,
    nanos: bool,
    details: Seq<u8>,
    link_type: u32,
    rest: Seq<u8>,
)
    requires
        details.len() == 16,
        link_type != 1,
    ensures
        ({
            let r = pcap_laws::capture_in(header_bytes(e, nanos, details, link_type) + rest);
            &&& r.frames.len() == 0
            &&& r.error == Some(pcap::PcapErrorView::UnsupportedLinkType(link_type))
        }),
{
    lemma_header_bytes(e, nanos, details, link_type);
    pcap_laws::law_other_link_types_are_refused(e, nanos, details, link_type, rest);
}

/// A record that claims more than 262144 bytes is an error, whatever follows.
pub proof fn law_oversized_records_are_refused(
    e: Endian,
    nanos: bool,
    sec: u32,
    frac: u32,
    claimed: u32,
    orig_len: u32,
    rest: Seq<u8>,
)
    requires
        claimed > 262144,
    ensures
        ({
            let r = pcap_laws::reading(
                pcap_laws::between_records(e, nanos),
                word(e, sec) + word(e, frac) + word(e, claimed) + word(e, orig_len) + rest,
            );
            &&& r.frames.len() == 0
            &&& r.error == Some(
                pcap::PcapErrorView::Malformed("record length exceeds the maximum frame size"@),
            )
        }),
{
    broadcast use {lemma_half_len, lemma_word_len};

    let head = word(e, sec) + word(e, frac) + word(e, claimed) + word(e, orig_len);
    lemma_word(e, claimed);
    assert(head.subrange(8, 12) =~= word(e, claimed));
    pcap_laws::lemma_put32(e, claimed, head, 8);
    let v = pcap_laws::between_records(e, nanos);
    pcap_laws::law_feeding_reads_the_stream(v, head, rest);
}

// ---- Timestamps -----------------------------------------------------------------------------

proof fn lemma_power_step(b: nat, n: nat)
    ensures
        pcap::power(b, n + 1) == b * pcap::power(b, n),
{
}

proof fn lemma_power_positive(b: nat, n: nat)
    requires
        b >= 1,
    ensures
        pcap::power(b, n) >= 1,
    decreases n,
{
    if n > 0 {
        lemma_power_positive(b, (n - 1) as nat);
        let p = pcap::power(b, (n - 1) as nat);
        assert(b * p >= 1) by (nonlinear_arith)
            requires
                b >= 1,
                p >= 1,
        ;
    }
}

proof fn lemma_scaled(t: nat, k: nat, u: nat)
    requires
        k >= 1,
        u >= 1,
    ensures
        ((k * t) * 1_000_000_000) / (k * u) == (t * 1_000_000_000) / u,
{
    let x = (t * 1_000_000_000) as int;
    assert((k * t) * 1_000_000_000 == k * (t * 1_000_000_000)) by (nonlinear_arith);
    vstd::arithmetic::div_mod::lemma_div_denominator(k * x, k as int, u as int);
    vstd::arithmetic::div_mod::lemma_div_multiples_vanish(x, k as int);
}

/// Without an exponent a tick is a second, and each further power of ten, or of
/// two where the top bit is set, makes ticks finer by that factor: the finer
/// count of the same instant is the same time.
pub proof fn law_resolutions_are_powers(t: u64, r: u8)
    requires
        r % 128 < 127,
    ensures
        pcap::ticks_to_ns(t, 0) == t * 1_000_000_000,
        pcap::ticks_to_ns(t, 128) == t * 1_000_000_000,
        r < 128 && t * 10 <= u64::MAX ==> pcap::ticks_to_ns((t * 10) as u64, (r + 1) as u8)
            == pcap::ticks_to_ns(t, r),
        r >= 128 && t * 2 <= u64::MAX ==> pcap::ticks_to_ns((t * 2) as u64, (r + 1) as u8)
            == pcap::ticks_to_ns(t, r),
{
    assert(pcap::power(10, 0) == 1 && pcap::power(2, 0) == 1);
    assert((t as nat * 1_000_000_000nat) / 1 == t * 1_000_000_000);
    if r < 128 {
        lemma_power_step(10, r as nat);
        lemma_power_positive(10, r as nat);
        lemma_scaled(t as nat, 10, pcap::power(10, r as nat));
    } else {
        let n = (r - 128) as nat;
        lemma_power_step(2, n);
        lemma_power_positive(2, n);
        lemma_scaled(t as nat, 2, pcap::power(2, n));
    }
}

/// Times keep their order: more ticks are no earlier, and ticks at all are some
/// time.
pub proof fn law_ticks_keep_their_order(a: u64, b: u64, r: u8)
    requires
        a <= b,
    ensures
        pcap::ticks_to_ns(a, r) <= pcap::ticks_to_ns(b, r),
        pcap::ticks_to_ns(a, r) == 0 <==> a == 0,
{
    lemma_power_positive(10, r as nat);
    lemma_power_positive(
        2,
        if r >= 128 {
            (r - 128) as nat
        } else {
            0
        },
    );
    let u = pcap::units_per_second(r) as int;
    let x = a * 1_000_000_000;
    let y = b * 1_000_000_000;
    assert(0 <= x / u <= y / u <= y) by (nonlinear_arith)
        requires
            0 <= x <= y,
            u >= 1,
    ;
    assert(y <= 0xFFFF_FFFF_FFFF_FFFF * 1_000_000_000);
    assert(0int / u == 0) by (nonlinear_arith)
        requires
            u >= 1,
    ;
}

// ---- pcapng ---------------------------------------------------------------------------------

/// A block of a pcapng file.
pub open spec fn block_bytes(e: Endian, kind: u32, body: Seq<u8>) -> Seq<u8> {
    word(e, kind) + word(e, (12 + body.len()) as u32) + body + word(e, (12 + body.len()) as u32)
}

proof fn lemma_block_bytes(e: Endian, kind: u32, body: Seq<u8>)
    ensures
        pcap_laws::ng_block(e, kind, body) == block_bytes(e, kind, body),
{
    broadcast use {lemma_half_len, lemma_word_len};

    lemma_word(e, kind);
    lemma_word(e, (12 + body.len()) as u32);
    assert(pcap_laws::ng_block(e, kind, body) =~= block_bytes(e, kind, body));
}

/// A section header: its type, its length, the byte-order mark, and whatever
/// else it holds.
pub open spec fn section_bytes(e: Endian, rest: Seq<u8>) -> Seq<u8> {
    seq![0x0Au8, 0x0Du8, 0x0Du8, 0x0Au8] + word(e, (12 + rest.len()) as u32) + word(
        e,
        0x1A2B_3C4D,
    ) + rest
}

proof fn lemma_section_bytes(e: Endian, rest: Seq<u8>)
    ensures
        pcap_laws::ng_section(e, rest) == section_bytes(e, rest),
{
    broadcast use {lemma_half_len, lemma_word_len};

    lemma_word(e, 0x0A0D_0D0A);
    lemma_word(e, (12 + rest.len()) as u32);
    lemma_word(e, 0x1A2B_3C4D);
    reveal(word);
    assert(word(e, 0x0A0D_0D0A) =~= seq![0x0Au8, 0x0Du8, 0x0Du8, 0x0Au8]);
    assert(pcap_laws::ng_section(e, rest) =~= section_bytes(e, rest));
}

/// A file that opens with a section header is read in the byte order of its
/// mark, behind the whole header and without any interface.
pub proof fn law_a_section_opens_a_file(e: Endian, rest: Seq<u8>, more: Seq<u8>)
    requires
        12 + rest.len() <= 16_777_216,
    ensures
        pcap_laws::capture_in(section_bytes(e, rest) + more) == pcap_laws::reading(
            pcap_laws::between_blocks(e, Seq::empty(), 0),
            more,
        ),
{
    lemma_section_bytes(e, rest);
    pcap_laws::lemma_section(e, rest, more);
}

/// A further section header starts anew: its own byte order, and no interfaces.
pub proof fn law_a_further_section_starts_anew(
    was: Endian,
    ifaces: Seq<pcap::IfaceInfo>,
    ts_ns: u128,
    e: Endian,
    rest: Seq<u8>,
    more: Seq<u8>,
)
    requires
        12 + rest.len() <= 16_777_216,
    ensures
        pcap_laws::reading(
            pcap_laws::between_blocks(was, ifaces, ts_ns),
            section_bytes(e, rest) + more,
        ) == pcap_laws::reading(pcap_laws::between_blocks(e, Seq::empty(), ts_ns), more),
{
    broadcast use {lemma_half_len, lemma_word_len};

    let v = pcap_laws::between_blocks(was, ifaces, ts_ns);
    let magic = seq![0x0Au8, 0x0Du8, 0x0Du8, 0x0Au8];
    let total = (12 + rest.len()) as u32;
    let head = word(e, total) + word(e, 0x1A2B_3C4D);
    assert(section_bytes(e, rest) + more =~= magic + (head + (rest + more)));
    pcap_laws::law_feeding_reads_the_stream(v, magic, head + (rest + more));
    let opened = pcap::ReaderView { phase: Phase::SectionHead(false), ..v };
    assert(pcap::step(v, magic) == pcap::Step::Quiet(opened));
    lemma_word(e, total);
    lemma_word(e, 0x1A2B_3C4D);
    assert(head.subrange(0, 4) =~= word(e, total));
    assert(head.subrange(4, 8) =~= word(e, 0x1A2B_3C4D));
    pcap_laws::lemma_put32(e, total, head, 0);
    pcap_laws::lemma_put32(e, 0x1A2B_3C4D, head, 4);
    pcap_laws::lemma_byte_order(e, head);
    pcap_laws::law_feeding_reads_the_stream(opened, head, rest + more);
    let fresh = pcap_laws::between_blocks(e, Seq::empty(), ts_ns);
    if rest.len() > 0 {
        let skipping = pcap::ReaderView {
            phase: Phase::SectionRest((total - 12) as u32),
            ..fresh
        };
        assert(pcap::step(opened, head) == pcap::Step::Quiet(skipping));
        pcap_laws::lemma_section_rest(skipping, (total - 12) as u32, rest, more);
        assert((pcap::ReaderView { phase: Phase::BlockType, ..skipping }) == fresh);
    } else {
        assert(pcap::step(opened, head) == pcap::Step::Quiet(fresh));
        assert(rest + more =~= more);
    }
}

/// A block that claims less than twelve bytes or more than 16777216 is an error.
pub proof fn law_implausible_blocks_are_refused(
    v: pcap::ReaderView,
    kind: u32,
    claimed: u32,
    rest: Seq<u8>,
)
    requires
        v.phase == Phase::BlockType,
        kind != 0x0A0D_0D0A,
        claimed < 12 || claimed > 16_777_216,
    ensures
        ({
            let r = pcap_laws::reading(v, word(v.endian, kind) + word(v.endian, claimed) + rest);
            &&& r.frames.len() == 0
            &&& r.error == Some(pcap::PcapErrorView::Malformed("implausible block length"@))
        }),
{
    broadcast use {lemma_half_len, lemma_word_len};

    let e = v.endian;
    let a = word(e, kind);
    let b = word(e, claimed);
    lemma_word(e, kind);
    lemma_word(e, claimed);
    assert(a + b + rest =~= a + (b + rest));
    assert(a.subrange(0, 4) =~= a);
    assert(b.subrange(0, 4) =~= b);
    pcap_laws::lemma_put32(e, kind, a, 0);
    pcap_laws::lemma_put32(e, claimed, b, 0);
    pcap_laws::law_feeding_reads_the_stream(v, a, b + rest);
    let sized = pcap::ReaderView { phase: Phase::BlockLength(kind), ..v };
    pcap_laws::law_feeding_reads_the_stream(sized, b, rest);
}

/// An option of an interface description.
pub ghost struct NgOption {
    pub code: u16,
    pub value: Seq<u8>,
}

/// An option as it stands in a block, padded to a multiple of four bytes.
pub open spec fn option_bytes(e: Endian, o: NgOption) -> Seq<u8> {
    half(e, o.code) + half(e, o.value.len() as u16) + o.value + Seq::new(
        ((4 - o.value.len() % 4) % 4) as nat,
        |i: int| 0u8,
    )
}

/// Options as they stand in a block.
pub open spec fn options_bytes(e: Endian, os: Seq<NgOption>) -> Seq<u8>
    decreases os.len(),
{
    if os.len() == 0 {
        Seq::empty()
    } else {
        option_bytes(e, os[0]) + options_bytes(e, os.skip(1))
    }
}

/// Whether an option gives a resolution: option 9, with a value.
pub open spec fn gives_resolution(o: NgOption) -> bool {
    o.code == 9 && o.value.len() >= 1
}

/// Whether the resolution is what the last such option gives, and microseconds
/// where there is none.
pub open spec fn is_resolution(r: u8, os: Seq<NgOption>, default: u8) -> bool {
    &&& (forall|i: int| 0 <= i < os.len() ==> !gives_resolution(#[trigger] os[i])) ==> r == default
    &&& forall|j: int|
        0 <= j < os.len() && gives_resolution(#[trigger] os[j]) && (forall|i: int|
            j < i < os.len() ==> !gives_resolution(#[trigger] os[i])) ==> r == os[j].value[0]
}

/// Whether options can be written: none ends the list, and none is too long.
pub open spec fn are_options(os: Seq<NgOption>) -> bool {
    forall|i: int| 0 <= i < os.len() ==> (#[trigger] os[i]).code != 0 && os[i].value.len() < 0x10000
}

proof fn lemma_options(e: Endian, body: Seq<u8>, off: int, os: Seq<NgOption>, found: u8)
    requires
        0 <= off,
        body.len() == off + options_bytes(e, os).len(),
        body.skip(off) == options_bytes(e, os),
        are_options(os),
    ensures
        is_resolution(pcap::resolution_in(e, body, off, found), os, found),
    decreases os.len(),
{
    broadcast use {lemma_half_len, lemma_word_len};

    if os.len() > 0 {
        let o = os[0];
        let rest = os.skip(1);
        let b = option_bytes(e, o);
        let more = options_bytes(e, rest);
        let n = o.value.len() as int;
        let s = body.skip(off);
        assert(o.code != 0 && n < 0x10000);
        assert(s == b + more);
        lemma_half(e, o.code);
        lemma_half(e, n as u16);
        assert(body.subrange(off, off + 2) =~= half(e, o.code)) by {
            assert forall|i: int| 0 <= i < 2 implies body[off + i] == half(e, o.code)[i] by {
                assert(s[i] == (b + more)[i]);
            }
        }
        assert(body.subrange(off + 2, off + 4) =~= half(e, n as u16)) by {
            assert(s[2] == (b + more)[2] && s[3] == (b + more)[3]);
            assert(body[off + 2] == half(e, n as u16)[0] && body[off + 3] == half(e, n as u16)[1]);
        }
        pcap_laws::lemma_put16(e, o.code, body, off);
        pcap_laws::lemma_put16(e, n as u16, body, off + 2);
        assert(b.len() == 4 + pcap::padded(n)) by {
            assert(n + (4 - n % 4) % 4 == (n + 3) / 4 * 4);
        }
        let next = off + b.len();
        assert(body.skip(next) =~= more) by {
            assert forall|i: int| 0 <= i < more.len() implies body[next + i] == more[i] by {
                assert(s[b.len() + i] == (b + more)[b.len() + i]);
            }
        }
        assert(are_options(rest)) by {
            assert forall|i: int| 0 <= i < rest.len() implies (#[trigger] rest[i]).code != 0
                && rest[i].value.len() < 0x10000 by {
                assert(rest[i] == os[i + 1]);
            }
        }
        let now = if gives_resolution(o) {
            o.value[0]
        } else {
            found
        };
        if n >= 1 {
            assert(s[4] == (b + more)[4]);
            assert(body[off + 4] == o.value[0]);
        }
        lemma_options(e, body, next, rest, now);
        let r = pcap::resolution_in(e, body, off, found);
        assert(r == pcap::resolution_in(e, body, next, now));
        if forall|i: int| 0 <= i < os.len() ==> !gives_resolution(#[trigger] os[i]) {
            assert forall|i: int| 0 <= i < rest.len() implies !gives_resolution(
                #[trigger] rest[i],
            ) by {
                assert(rest[i] == os[i + 1]);
            }
            assert(!gives_resolution(os[0]));
        }
        assert forall|j: int|
            0 <= j < os.len() && gives_resolution(#[trigger] os[j]) && (forall|i: int|
                j < i < os.len() ==> !gives_resolution(#[trigger] os[i])) implies r
            == os[j].value[0] by {
            assert forall|i: int| j <= i < rest.len() implies !gives_resolution(
                #[trigger] rest[i],
            ) by {
                assert(rest[i] == os[i + 1]);
            }
            if j > 0 {
                assert(rest[j - 1] == os[j]);
                assert(gives_resolution(rest[j - 1]));
            }
        }
    }
}

/// An interface description adds an interface: its link type, and the
/// resolution that its options give, microseconds where they give none.
pub proof fn law_an_interface_is_added(
    e: Endian,
    ifaces: Seq<pcap::IfaceInfo>,
    ts_ns: u128,
    link_type: u16,
    details: Seq<u8>,
    os: Seq<NgOption>,
    rest: Seq<u8>,
)
    requires
        details.len() == 6,
        are_options(os),
        20 + options_bytes(e, os).len() <= 16_777_216,
    ensures
        exists|resolution: u8| #[trigger]
            is_resolution(resolution, os, 6) && pcap_laws::reading(
                pcap_laws::between_blocks(e, ifaces, ts_ns),
                block_bytes(e, 1, half(e, link_type) + details + options_bytes(e, os)) + rest,
            ) == pcap_laws::reading(
                pcap_laws::between_blocks(
                    e,
                    ifaces.push(pcap::IfaceInfo { resolution, link_type: link_type as u32 }),
                    ts_ns,
                ),
                rest,
            ),
{
    broadcast use {lemma_half_len, lemma_word_len};

    let v = pcap_laws::between_blocks(e, ifaces, ts_ns);
    let body = half(e, link_type) + details + options_bytes(e, os);
    lemma_block_bytes(e, 1, body);
    pcap_laws::lemma_block(v, 1, body, rest);
    assert(body.skip(8) =~= options_bytes(e, os));
    lemma_options(e, body, 8, os, 6);
    lemma_half(e, link_type);
    assert(body.subrange(0, 2) =~= half(e, link_type));
    pcap_laws::lemma_put16(e, link_type, body, 0);
    let resolution = pcap::resolution_in(e, body, 8, 6);
    assert(is_resolution(resolution, os, 6));
    let info = pcap::IfaceInfo { resolution, link_type: link_type as u32 };
    assert(ifaces + pcap::interface_in(e, body) =~= ifaces.push(info));
}

/// A packet of an enhanced (6) or legacy (2) packet block: the interface as a
/// word or, with a count of drops behind it, as a half; the time in two words;
/// the captured and the original length; the data, and what follows it.
pub open spec fn packet_bytes(
    e: Endian,
    legacy: bool,
    id: u16,
    drops: u16,
    high: u32,
    low: u32,
    orig_len: u32,
    data: Seq<u8>,
    tail: Seq<u8>,
) -> Seq<u8> {
    (if legacy {
        half(e, id) + half(e, drops)
    } else {
        word(e, id as u32)
    }) + word(e, high) + word(e, low) + word(e, data.len() as u32) + word(e, orig_len) + data + tail
}

proof fn lemma_packet_bytes(
    e: Endian,
    legacy: bool,
    id: u16,
    drops: u16,
    high: u32,
    low: u32,
    orig_len: u32,
    data: Seq<u8>,
    tail: Seq<u8>,
)
    requires
        data.len() <= 262144,
    ensures
        ({
            let b = packet_bytes(e, legacy, id, drops, high, low, orig_len, data, tail);
            &&& b.len() == 20 + data.len() + tail.len()
            &&& legacy ==> pcap::u16_at(e, b, 0) == id
            &&& !legacy ==> pcap::u32_at(e, b, 0) == id
            &&& pcap::u32_at(e, b, 4) == high
            &&& pcap::u32_at(e, b, 8) == low
            &&& pcap::u32_at(e, b, 12) == data.len()
            &&& pcap::u32_at(e, b, 16) == orig_len
            &&& b.subrange(20, 20 + data.len() as int) == data
        }),
{
    broadcast use {lemma_half_len, lemma_word_len};

    let b = packet_bytes(e, legacy, id, drops, high, low, orig_len, data, tail);
    lemma_half(e, id);
    lemma_word(e, id as u32);
    lemma_word(e, high);
    lemma_word(e, low);
    lemma_word(e, data.len() as u32);
    lemma_word(e, orig_len);
    if legacy {
        assert(b.subrange(0, 2) =~= half(e, id));
        pcap_laws::lemma_put16(e, id, b, 0);
    } else {
        assert(b.subrange(0, 4) =~= word(e, id as u32));
        pcap_laws::lemma_put32(e, id as u32, b, 0);
    }
    assert(b.subrange(4, 8) =~= word(e, high));
    assert(b.subrange(8, 12) =~= word(e, low));
    assert(b.subrange(12, 16) =~= word(e, data.len() as u32));
    assert(b.subrange(16, 20) =~= word(e, orig_len));
    pcap_laws::lemma_put32(e, high, b, 4);
    pcap_laws::lemma_put32(e, low, b, 8);
    pcap_laws::lemma_put32(e, data.len() as u32, b, 12);
    pcap_laws::lemma_put32(e, orig_len, b, 16);
    assert(b.subrange(20, 20 + data.len() as int) =~= data);
}

/// A packet of an Ethernet interface gives its frame, with the time that its
/// ticks are in the interface's resolution; a packet of any other interface
/// gives none.
pub proof fn law_packets_of_ethernet_interfaces_are_read(
    e: Endian,
    ifaces: Seq<pcap::IfaceInfo>,
    ts_ns: u128,
    legacy: bool,
    id: u16,
    drops: u16,
    high: u32,
    low: u32,
    orig_len: u32,
    data: Seq<u8>,
    tail: Seq<u8>,
    rest: Seq<u8>,
)
    requires
        data.len() <= 262144,
        32 + data.len() + tail.len() <= 16_777_216,
    ensures
        ({
            let r = pcap_laws::reading(
                pcap_laws::between_blocks(e, ifaces, ts_ns),
                block_bytes(
                    e,
                    if legacy {
                        2
                    } else {
                        6
                    },
                    packet_bytes(e, legacy, id, drops, high, low, orig_len, data, tail),
                ) + rest,
            );
            if id < ifaces.len() && ifaces[id as int].link_type == 1 {
                let ts = pcap::ticks_to_ns(
                    (high * 0x1_0000_0000 + low) as u64,
                    ifaces[id as int].resolution,
                );
                let later = pcap_laws::reading(pcap_laws::between_blocks(e, ifaces, ts), rest);
                &&& r.frames.len() == 1 + later.frames.len()
                &&& r.frames[0].data == data
                &&& r.frames[0].orig_len == orig_len
                &&& r.frames[0].ts_ns == ts
                &&& r.frames.skip(1) == later.frames
                &&& r.error == later.error
            } else {
                r == pcap_laws::reading(pcap_laws::between_blocks(e, ifaces, ts_ns), rest)
            }
        }),
{
    let v = pcap_laws::between_blocks(e, ifaces, ts_ns);
    let b = packet_bytes(e, legacy, id, drops, high, low, orig_len, data, tail);
    let kind: u32 = if legacy {
        2
    } else {
        6
    };
    lemma_packet_bytes(e, legacy, id, drops, high, low, orig_len, data, tail);
    lemma_block_bytes(e, kind, b);
    pcap_laws::lemma_block(v, kind, b, rest);
    if id < ifaces.len() && ifaces[id as int].link_type == 1 {
        let f = pcap::stamped_frame(v, b, id as int)->0;
        assert(pcap::block_frame(v, kind, b) == Some(f));
        let next = pcap_laws::between_blocks(e, ifaces, f.ts_ns);
        assert(pcap::on_block(v, kind, b) == pcap::Step::Frame(next, f));
        let later = pcap_laws::reading(next, rest);
        assert((seq![f] + later.frames).skip(1) =~= later.frames);
    } else {
        assert(pcap::block_frame(v, kind, b) is None);
        assert(pcap::on_block(v, kind, b) == pcap::Step::Quiet(v));
    }
}

/// A simple packet belongs to the first interface and has no time of its own:
/// the last time stands for it. Its data is what there is of the original
/// length, and at most 262144 bytes.
pub proof fn law_simple_packets_are_read(
    e: Endian,
    ifaces: Seq<pcap::IfaceInfo>,
    ts_ns: u128,
    orig_len: u32,
    held: Seq<u8>,
    rest: Seq<u8>,
)
    requires
        16 + held.len() <= 16_777_216,
    ensures
        ({
            let r = pcap_laws::reading(
                pcap_laws::between_blocks(e, ifaces, ts_ns),
                block_bytes(e, 3, word(e, orig_len) + held) + rest,
            );
            let later = pcap_laws::reading(pcap_laws::between_blocks(e, ifaces, ts_ns), rest);
            if ifaces.len() > 0 && ifaces[0].link_type == 1 {
                let n = r.frames[0].data.len();
                &&& r.frames.len() == 1 + later.frames.len()
                &&& n <= orig_len && n <= held.len() && n <= 262144
                &&& n == orig_len || n == held.len() || n == 262144
                &&& r.frames[0].data == held.take(n as int)
                &&& r.frames[0].orig_len == orig_len
                &&& r.frames[0].ts_ns == ts_ns
                &&& r.frames.skip(1) == later.frames
                &&& r.error == later.error
            } else {
                r == later
            }
        }),
{
    broadcast use {lemma_half_len, lemma_word_len};

    let v = pcap_laws::between_blocks(e, ifaces, ts_ns);
    let b = word(e, orig_len) + held;
    lemma_word(e, orig_len);
    lemma_block_bytes(e, 3, b);
    pcap_laws::lemma_block(v, 3, b, rest);
    assert(b.subrange(0, 4) =~= word(e, orig_len));
    pcap_laws::lemma_put32(e, orig_len, b, 0);
    let later = pcap_laws::reading(v, rest);
    if ifaces.len() > 0 && ifaces[0].link_type == 1 {
        let f = pcap::simple_frame(v, b)->0;
        assert(pcap::block_frame(v, 3, b) == Some(f));
        assert(pcap::on_block(v, 3, b) == pcap::Step::Frame(v, f));
        assert(f.data =~= held.take(f.data.len() as int));
        assert((seq![f] + later.frames).skip(1) =~= later.frames);
    } else {
        assert(pcap::block_frame(v, 3, b) is None);
        assert(pcap::on_block(v, 3, b) == pcap::Step::Quiet(v));
    }
}

/// Blocks of any other type are passed over.
pub proof fn law_other_blocks_are_passed_over(
    e: Endian,
    ifaces: Seq<pcap::IfaceInfo>,
    ts_ns: u128,
    kind: u32,
    body: Seq<u8>,
    rest: Seq<u8>,
)
    requires
        kind != 1 && kind != 2 && kind != 3 && kind != 6 && kind != 0x0A0D_0D0A,
        12 + body.len() <= 16_777_216,
    ensures
        pcap_laws::reading(
            pcap_laws::between_blocks(e, ifaces, ts_ns),
            block_bytes(e, kind, body) + rest,
        ) == pcap_laws::reading(pcap_laws::between_blocks(e, ifaces, ts_ns), rest),
{
    let v = pcap_laws::between_blocks(e, ifaces, ts_ns);
    lemma_block_bytes(e, kind, body);
    pcap_laws::lemma_block(v, kind, body, rest);
    assert(pcap::on_block(v, kind, body) == pcap::Step::Quiet(v));
}

// ---- Loads ------------------------------------------------------------------------------------

/// A frame counts with its length on the wire, and with what was captured where
/// that is more.
pub proof fn law_frames_count_in_full(f: pcap::CapturedView)
    ensures
        load::wire_size(f) >= f.orig_len,
        load::wire_size(f) >= f.data.len(),
        load::wire_size(f) == f.orig_len || load::wire_size(f) == f.data.len(),
{
}

/// Whether two frames have times, the second no earlier.
pub open spec fn timed_pair(frames: Seq<pcap::CapturedView>, i: int, j: int) -> bool {
    &&& 0 <= i < frames.len() && 0 <= j < frames.len()
    &&& 0 < frames[i].ts_ns <= frames[j].ts_ns
}

/// The span of a load covers the times of all its frames and no more: whether
/// they passed the filter or not, and leaving out only frames without a time.
pub proof fn law_a_load_covers_all_times(
    f: filter::FrameFilterView,
    frames: Seq<pcap::CapturedView>,
)
    ensures
        ({
            let c = stats::covered(load::loaded(f, frames).span);
            &&& forall|i: int, j: int| #[trigger]
                timed_pair(frames, i, j) ==> frames[j].ts_ns - frames[i].ts_ns <= c
            &&& c > 0 ==> exists|i: int, j: int| #[trigger]
                timed_pair(frames, i, j) && frames[j].ts_ns - frames[i].ts_ns == c
        }),
{
    lemma_span(f, frames);
    let s = load::loaded(f, frames).span;
    if stats::covered(s) > 0 {
        let i = choose|i: int| 0 <= i < frames.len() && #[trigger] frames[i].ts_ns == s.min->0;
        let j = choose|j: int| 0 <= j < frames.len() && #[trigger] frames[j].ts_ns == s.max->0;
        assert(timed_pair(frames, i, j));
    }
}

proof fn lemma_span(f: filter::FrameFilterView, frames: Seq<pcap::CapturedView>)
    ensures
        ({
            let s = load::loaded(f, frames).span;
            &&& s.min is Some == s.max is Some
            &&& s.min is Some ==> 0 < s.min->0 <= s.max->0
            &&& s.min is Some ==> exists|i: int|
                0 <= i < frames.len() && #[trigger] frames[i].ts_ns == s.min->0
            &&& s.max is Some ==> exists|i: int|
                0 <= i < frames.len() && #[trigger] frames[i].ts_ns == s.max->0
            &&& forall|i: int|
                0 <= i < frames.len() && (#[trigger] frames[i]).ts_ns > 0 ==> s.min is Some
                    && s.min->0 <= frames[i].ts_ns <= s.max->0
        }),
    decreases frames.len(),
{
    if frames.len() > 0 {
        let front = frames.drop_last();
        let last = frames.last();
        let n = frames.len() - 1;
        lemma_span(f, front);
        let a = load::loaded(f, front).span;
        let s = load::loaded(f, frames).span;
        assert(s == stats::widened(a, Some(last.ts_ns)));
        assert(frames[n] == last);
        if a.min is Some {
            let i = choose|i: int| 0 <= i < front.len() && #[trigger] front[i].ts_ns == a.min->0;
            let j = choose|j: int| 0 <= j < front.len() && #[trigger] front[j].ts_ns == a.max->0;
            assert(frames[i] == front[i] && frames[j] == front[j]);
        }
        assert forall|i: int|
            0 <= i < frames.len() && (#[trigger] frames[i]).ts_ns > 0 implies s.min is Some
            && s.min->0 <= frames[i].ts_ns <= s.max->0 by {
            if i < n {
                assert(front[i] == frames[i]);
            }
        }
    }
}

/// The frames that a filter lets through and that belong to a row.
pub open spec fn in_row(
    f: filter::FrameFilterView,
    frames: Seq<pcap::CapturedView>,
    p: Protocol,
    k: counts::StatKeyView,
) -> Seq<pcap::CapturedView>
    decreases frames.len(),
{
    if frames.len() == 0 {
        Seq::empty()
    } else {
        let front = in_row(f, frames.drop_last(), p, k);
        let what = classify::classified(frames.last().data);
        if load::passes(f, frames.last().data) && what.proto == p && what.vlans == k.vlans
            && what.redundancy == k.redundancy && what.app == k.app {
            front.push(frames.last())
        } else {
            front
        }
    }
}

/// All lengths on the wire.
pub open spec fn wire_bytes(frames: Seq<pcap::CapturedView>) -> nat
    decreases frames.len(),
{
    if frames.len() == 0 {
        0
    } else {
        wire_bytes(frames.drop_last()) + load::wire_size(frames.last())
    }
}

/// Each row of a load counts exactly the frames let through that have its
/// protocol, its VLAN tags, its redundancy and its application header.
pub proof fn law_each_row_counts_its_frames(
    f: filter::FrameFilterView,
    frames: Seq<pcap::CapturedView>,
    p: Protocol,
    k: counts::StatKeyView,
)
    requires
        load::passing_bytes(f, frames) <= u64::MAX,
        frames.len() <= u64::MAX,
    ensures
        ({
            let c = counts::tally_of(load::loaded(f, frames).stats, p, k);
            c.packets == in_row(f, frames, p, k).len() && c.bytes == wire_bytes(
                in_row(f, frames, p, k),
            )
        }),
    decreases frames.len(),
{
    let l = load::loaded(f, frames);
    if frames.len() == 0 {
        assert(!counts::has_protocol(l.stats, p)) by {
            if counts::has_protocol(l.stats, p) {
                assert(counts::protocol_at(l.stats, p, counts::protocol_of(l.stats, p)));
            }
        }
        let rows = counts::rows_of(l.stats, p);
        if counts::has_row(rows, k) {
            assert(counts::row_at(rows, k, counts::row_of(rows, k)));
        }
    } else {
        let front = frames.drop_last();
        let last = frames.last();
        law_each_row_counts_its_frames(f, front, p, k);
        load::law_a_load_counts_what_passes(f, front);
        load::law_a_load_counts_what_passes(f, frames);
        if load::passes(f, last.data) {
            let what = classify::classified(last.data);
            let key = counts::key_of(what);
            let before = load::loaded(f, front).stats;
            let one = counts::packet(load::wire_size(last) as u64);
            counts::lemma_tally_of_within(before, what.proto, key);
            counts::lemma_counted(before, what.proto, key, one);
            counts::lemma_tally_of_within(before, p, k);
            let rows = in_row(f, front, p, k);
            assert(rows.push(last).drop_last() =~= rows);
        }
    }
}

// ---- What is not as it should be ----------------------------------------------------------------

/// A section header without a byte-order mark is an error, and so is one that
/// claims less than twelve bytes or more than 16777216.
pub proof fn law_implausible_sections_are_refused(
    e: Endian,
    claimed: u32,
    mark: u32,
    rest: Seq<u8>,
)
    ensures
        ({
            let r = pcap_laws::capture_in(
                seq![0x0Au8, 0x0Du8, 0x0Du8, 0x0Au8] + word(e, claimed) + word(e, mark) + rest,
            );
            &&& mark == 0x1A2B_3C4D && (claimed < 12 || claimed > 16_777_216) ==> r.frames.len()
                == 0 && r.error == Some(
                pcap::PcapErrorView::Malformed("implausible section header block length"@),
            )
            &&& mark != 0x1A2B_3C4D && mark != 0x4D3C_2B1A ==> r.frames.len() == 0 && r.error
                == Some(pcap::PcapErrorView::Malformed("bad pcapng byte-order magic"@))
        }),
{
    broadcast use {lemma_half_len, lemma_word_len};

    let start = pcap::at_start();
    let magic = seq![0x0Au8, 0x0Du8, 0x0Du8, 0x0Au8];
    let head = word(e, claimed) + word(e, mark);
    assert(magic + word(e, claimed) + word(e, mark) + rest =~= magic + (head + rest));
    pcap_laws::law_feeding_reads_the_stream(start, magic, head + rest);
    let opened = pcap::ReaderView { phase: Phase::SectionHead(true), ..start };
    assert(pcap::step(start, magic) == pcap::Step::Quiet(opened));
    lemma_word(e, claimed);
    lemma_word(e, mark);
    assert(head.subrange(0, 4) =~= word(e, claimed));
    assert(head.subrange(4, 8) =~= word(e, mark));
    pcap_laws::lemma_put32(e, claimed, head, 0);
    pcap_laws::lemma_put32(e, mark, head, 4);
    lemma_mark(e, mark, head);
    pcap_laws::law_feeding_reads_the_stream(opened, head, rest);
}

/// In the other byte order a mark reads with its bytes exchanged.
proof fn lemma_mark(e: Endian, mark: u32, head: Seq<u8>)
    requires
        head.len() == 8,
        head.subrange(4, 8) == word(e, mark),
    ensures
        mark == 0x1A2B_3C4D ==> (pcap::u32_at(Endian::Little, head, 4) == 0x1A2B_3C4D <==> e
            == Endian::Little),
        mark == 0x1A2B_3C4D ==> pcap::u32_at(e, head, 4) == 0x1A2B_3C4D,
        mark != 0x1A2B_3C4D && mark != 0x4D3C_2B1A ==> pcap::u32_at(Endian::Little, head, 4)
            != 0x1A2B_3C4D && pcap::u32_at(Endian::Big, head, 4) != 0x1A2B_3C4D,
{
    reveal(word);
    let s = head.subrange(4, 8);
    assert(s[0] == head[4] && s[1] == head[5] && s[2] == head[6] && s[3] == head[7]);
    let a = (mark % 256) as u8;
    let b = (mark / 256 % 256) as u8;
    let c = (mark / 65536 % 256) as u8;
    let d = (mark / 16777216) as u8;
    assert(mark == a + 256 * b + 65536 * c + 16777216 * d);
    lemma_digits(a, b, c, d);
    lemma_digits(d, c, b, a);
    lemma_digits(0x4D, 0x3C, 0x2B, 0x1A);
    lemma_digits(0x1A, 0x2B, 0x3C, 0x4D);
}

/// A packet block that is too short for its own header, or that claims more than
/// it holds or than 262144 bytes, gives no frame; neither does a simple packet
/// block without a length.
pub proof fn law_impossible_packets_are_passed_over(
    e: Endian,
    ifaces: Seq<pcap::IfaceInfo>,
    ts_ns: u128,
    kind: u32,
    body: Seq<u8>,
    rest: Seq<u8>,
)
    requires
        12 + body.len() <= 16_777_216,
        ({
            let claimed = match e {
                Endian::Little => body[12] + 256 * body[13] + 65536 * body[14] + 16777216 * body[15],
                Endian::Big => body[15] + 256 * body[14] + 65536 * body[13] + 16777216 * body[12],
            };
            ||| (kind == 6 || kind == 2) && (body.len() < 20 || claimed > 262144 || claimed
                > body.len() - 20)
            ||| kind == 3 && body.len() < 4
        }),
    ensures
        pcap_laws::reading(
            pcap_laws::between_blocks(e, ifaces, ts_ns),
            block_bytes(e, kind, body) + rest,
        ) == pcap_laws::reading(pcap_laws::between_blocks(e, ifaces, ts_ns), rest),
{
    let v = pcap_laws::between_blocks(e, ifaces, ts_ns);
    lemma_block_bytes(e, kind, body);
    pcap_laws::lemma_block(v, kind, body, rest);
    assert(pcap::block_frame(v, kind, body) is None);
    assert(pcap::on_block(v, kind, body) == pcap::Step::Quiet(v));
}

/// An interface description too short for its own header adds no interface.
pub proof fn law_short_descriptions_add_nothing(
    e: Endian,
    ifaces: Seq<pcap::IfaceInfo>,
    ts_ns: u128,
    body: Seq<u8>,
    rest: Seq<u8>,
)
    requires
        body.len() < 8,
    ensures
        pcap_laws::reading(
            pcap_laws::between_blocks(e, ifaces, ts_ns),
            block_bytes(e, 1, body) + rest,
        ) == pcap_laws::reading(pcap_laws::between_blocks(e, ifaces, ts_ns), rest),
{
    let v = pcap_laws::between_blocks(e, ifaces, ts_ns);
    lemma_block_bytes(e, 1, body);
    pcap_laws::lemma_block(v, 1, body, rest);
    assert(ifaces + pcap::interface_in(e, body) =~= ifaces);
    assert(pcap::on_block(v, 1, body) == pcap::Step::Quiet(v));
}

/// A file that ends inside its header is an error: a signature alone is no
/// capture yet.
pub proof fn law_cut_headers_are_refused(s: Seq<u8>)
    requires
        pcap::capture_magic(s),
    ensures
        ({
            let r = pcap_laws::capture_in(s);
            &&& s[0] == 0x0A && s.len() < 12 ==> r.frames.len() == 0 && r.error == Some(
                pcap::PcapErrorView::Malformed("truncated section header block"@),
            )
            &&& s[0] != 0x0A && s.len() < 24 ==> r.frames.len() == 0 && r.error == Some(
                pcap::PcapErrorView::Malformed("truncated pcap header"@),
            )
        }),
{
    law_captures_have_a_signature(s);
    pcap_laws::law_opening_reads_the_header(s);
    let t = seq![s[0], s[1], s[2], s[3]];
    lemma_four(s, t, 0x0A, 0x0D, 0x0D, 0x0A);
    if s[0] == 0x0A {
        assert(t[0] == 0x0A);
        assert(t == seq![0x0Au8, 0x0Du8, 0x0Du8, 0x0Au8]) by {
            assert(seq![0xD4u8, 0xC3u8, 0xB2u8, 0xA1u8][0] != 0x0A);
            assert(seq![0x4Du8, 0x3Cu8, 0xB2u8, 0xA1u8][0] != 0x0A);
            assert(seq![0xA1u8, 0xB2u8, 0xC3u8, 0xD4u8][0] != 0x0A);
            assert(seq![0xA1u8, 0xB2u8, 0x3Cu8, 0x4Du8][0] != 0x0A);
        }
    } else {
        assert(t[0] != 0x0A);
        assert(seq![0x0Au8, 0x0Du8, 0x0Du8, 0x0Au8][0] == 0x0A);
    }
}

/// What is wrong with a file is said of it.
pub proof fn law_errors_tell_what_is_wrong(n: u32, what: Seq<char>)
    ensures
        pcap::error_text(pcap::PcapErrorView::NotACapture)
            == "not a pcap/pcapng file (its header does not carry a capture-file magic number)"@,
        pcap::error_text(pcap::PcapErrorView::UnsupportedLinkType(n)) == "unsupported link type "@
            + text::dec(n as nat) + "; only Ethernet (link type 1) captures can be classified"@,
        pcap::error_text(pcap::PcapErrorView::Malformed(what)) == "malformed capture file: "@
            + what,
{
}

} // verus!
