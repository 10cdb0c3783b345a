//! Reading a frame: VLAN and redundancy tags, EtherTypes, IPv4 transport, and
//! the GOOSE / Sampled Values application headers.
//!
//! Everything here works over a byte slice with every access bounded, so a
//! truncated or hostile frame can only ever produce a less-populated row.
use crate::ber;
use crate::ber::{be_uint, ber_len, ber_string, read_tlv, u16be};
use crate::consts::{
    ET_ARP, ET_GOOSE, ET_GSSE, ET_HSR, ET_IPV4, ET_IPV6, ET_LLDP, ET_PTP, ET_QINQ, ET_SV, ET_VLAN,
    IPPROTO_TCP, IPPROTO_UDP, PORT_DNP3, PORT_IEC104, PORT_MMS, PORT_MODBUS, PORT_NTP, PRP_SUF,
};
use crate::parse;
use crate::parse::{AppInfo, Frame, Protocol, Redundancy, VlanTags};
use vstd::prelude::*;
use vstd::slice::slice_subrange;

verus! {

broadcast use ber::lemma_last_of_push;

/// BER tag of a `goosePdu` (APPLICATION 1).
pub const GOOSE_PDU_TAG: u8 = 0x61;

/// BER tag of a `savPdu` (APPLICATION 0).
pub const SV_PDU_TAG: u8 = 0x60;

/// How far into a UDP payload to look for the application PDU. Session
/// headers run to a few tens of bytes; this is generous without letting the
/// scan wander into payload data.
pub const SESSION_SCAN_WINDOW: usize = 128;

// ---- Application headers: model ---------------------------------------------

/// The smaller of two numbers.
pub open spec fn lesser(a: int, b: int) -> int {
    if a <= b {
        a
    } else {
        b
    }
}

/// The first choice, or the second where there is none.
pub open spec fn preferred(a: Option<Seq<char>>, b: Option<Seq<char>>) -> Option<Seq<char>> {
    if a is Some {
        a
    } else {
        b
    }
}

/// The elements of the PDU whose tag octet stands at `p`.
pub open spec fn pdu_elements(d: Seq<u8>, p: int) -> Seq<ber::Element> {
    let (len, octets) = ber::length_at(d, p + 1);
    let body = p + 1 + octets;
    ber::elements(d, body, lesser(body + len, d.len() as int))
}

/// The header of a GOOSE frame whose payload starts at `off`.
///
/// Eight bytes of AppID, Length, Reserved1 (top bit: simulation) and
/// Reserved2, then a goosePdu. goID is the operator-facing name; gocbRef is
/// the fallback where it is absent.
pub open spec fn goose_header(d: Seq<u8>, off: int) -> parse::AppInfoView {
    if off + 8 > d.len() {
        parse::no_app()
    } else if !ber::byte_is(d, off + 8, GOOSE_PDU_TAG) {
        parse::AppInfoView { appid: Some(ber::be16(d, off)), ..parse::no_app() }
    } else {
        let es = pdu_elements(d, off + 8);
        parse::AppInfoView {
            appid: Some(ber::be16(d, off)),
            svid: preferred(ber::text_field(d, es, 0x83), ber::text_field(d, es, 0x80)),
            noasdu: ber::uint_field(d, es, 0x85),
            confrev: ber::uint_field(d, es, 0x88),
            sim: Some(d[off + 4] >= 0x80),
        }
    }
}

/// The elements of the first ASDU in a `seqOfAsdu` element, if it opens with
/// one.
pub open spec fn first_asdu(d: Seq<u8>, e: ber::Element) -> Seq<ber::Element> {
    if e.tag != 0xA2 {
        Seq::empty()
    } else {
        match ber::element_at(d, e.start, e.end) {
            Some(a) => if a.tag == 0x30 {
                ber::elements(d, a.start, a.end)
            } else {
                Seq::empty()
            },
            None => Seq::empty(),
        }
    }
}

/// The ASDU elements of a savPdu, in order.
pub open spec fn asdu_elements(d: Seq<u8>, es: Seq<ber::Element>) -> Seq<ber::Element>
    decreases es.len(),
{
    if es.len() == 0 {
        Seq::empty()
    } else {
        asdu_elements(d, es.drop_last()) + first_asdu(d, es.last())
    }
}

/// The header of a Sampled Values frame whose payload starts at `off`: shaped
/// as for GOOSE, with a savPdu. svID and confRev stand in the first ASDU.
pub open spec fn sv_header(d: Seq<u8>, off: int) -> parse::AppInfoView {
    if off + 8 > d.len() {
        parse::no_app()
    } else if !ber::byte_is(d, off + 8, SV_PDU_TAG) {
        parse::AppInfoView { appid: Some(ber::be16(d, off)), ..parse::no_app() }
    } else {
        let es = pdu_elements(d, off + 8);
        let asdu = asdu_elements(d, es);
        parse::AppInfoView {
            appid: Some(ber::be16(d, off)),
            svid: ber::text_field(d, asdu, 0x80),
            noasdu: ber::uint_field(d, es, 0x80),
            confrev: ber::uint_field(d, asdu, 0x83),
            sim: Some(d[off + 4] >= 0x80),
        }
    }
}

/// Whether an application PDU of `tag` starts at `p`: a plausible length, and
/// a body that opens with tag `0x80`.
pub open spec fn is_session_pdu(d: Seq<u8>, p: int, tag: u8) -> bool {
    let (len, octets) = ber::length_at(d, p + 1);
    ber::byte_is(d, p, tag) && 0 < len < 0x8000 && ber::byte_is(d, p + 1 + octets, 0x80)
}

/// The first application PDU of `tag` at or after `from` and before `stop`.
pub open spec fn session_pdu(d: Seq<u8>, from: int, stop: int, tag: u8) -> Option<int>
    decreases stop - from,
{
    if from >= stop {
        None
    } else if is_session_pdu(d, from, tag) {
        Some(from)
    } else {
        session_pdu(d, from + 1, stop, tag)
    }
}

/// The first application PDU of `tag` in the scan window of a UDP payload.
pub open spec fn payload_pdu(d: Seq<u8>, udp: int, tag: u8) -> Option<int> {
    session_pdu(d, udp + 4, lesser(udp + SESSION_SCAN_WINDOW, d.len() as int), tag)
}

/// Whether the last element carrying `tag` holds a non-zero byte.
pub open spec fn bool_field(d: Seq<u8>, es: Seq<ber::Element>, tag: u8) -> bool {
    match ber::last_of(es, tag) {
        None => false,
        Some(e) => exists|i: int| e.start <= i < e.end && d[i] != 0,
    }
}

/// The header of an R-GOOSE packet whose UDP payload starts at `udp`.
///
/// The four bytes before the PDU are AppID and Length. There is no Reserved1
/// field, so the simulation flag is element `0x87` of the PDU.
pub open spec fn rgoose_header(d: Seq<u8>, udp: int) -> parse::AppInfoView {
    match payload_pdu(d, udp, GOOSE_PDU_TAG) {
        None => parse::no_app(),
        Some(p) => {
            let es = pdu_elements(d, p);
            parse::AppInfoView {
                appid: Some(ber::be16(d, p - 4)),
                svid: preferred(ber::text_field(d, es, 0x83), ber::text_field(d, es, 0x80)),
                noasdu: ber::uint_field(d, es, 0x85),
                confrev: ber::uint_field(d, es, 0x88),
                sim: Some(bool_field(d, es, 0x87)),
            }
        },
    }
}

// ---- Application headers: readers ---------------------------------------------

/// The range of elements of the PDU whose tag octet stands at `p`.
fn pdu_range(data: &[u8], p: usize) -> (r: (usize, usize))
    requires
        p < data@.len(),
    ensures
        r.1 <= data@.len(),
        ber::elements(data@, r.0 as int, r.1 as int) == pdu_elements(data@, p as int),
{
    let n: usize = data.len();
    let (len, consumed) = ber_len(data, p + 1);
    if consumed > n - p - 1 {
        assert(pdu_elements(data@, p as int) =~= Seq::empty());
        return (0, 0);
    }
    let body: usize = p + 1 + consumed;
    if len > n - body {
        (body, n)
    } else {
        (body, body + len)
    }
}

/// GOOSE APDU (IEC 61850-8-1 annex A).
///
/// 8-byte header (AppID, Length, Reserved1, Reserved2), where the top bit of
/// Reserved1 is the simulation flag, followed by a `goosePdu` under BER tag
/// `0x61` (APPLICATION 1).
pub fn parse_goose_payload(data: &[u8], off: usize) -> (r: AppInfo)
    ensures
        r@ == goose_header(data@, off as int),
{
    let mut info: AppInfo = AppInfo::default();
    if data.len() < 8 || off > data.len() - 8 {
        return info;
    }
    info.appid = u16be(data, off);
    let p: usize = off + 8;
    if p >= data.len() || data[p] != GOOSE_PDU_TAG {
        // Not a goosePdu after all: keep the AppID we could read and leave
        // every decoded field empty rather than reporting guesses.
        return info;
    }
    info.sim = Some(data[off + 4] >= 0x80);

    let (body, end) = pdu_range(data, p);
    let mut gocb_ref: Option<String> = None;
    let mut go_id: Option<String> = None;
    let mut st_num: Option<u64> = None;
    let mut conf_rev: Option<u64> = None;
    let mut cur: usize = body;
    let ghost all = ber::elements(data@, body as int, end as int);
    let ghost mut done: Seq<ber::Element> = Seq::empty();
    assert(done + all =~= all);
    loop
        invariant_except_break
            all == done + ber::elements(data@, cur as int, end as int),
        invariant
            end <= data@.len(),
            parse::opt_text(gocb_ref) == ber::text_field(data@, done, 0x80),
            parse::opt_text(go_id) == ber::text_field(data@, done, 0x83),
            st_num == ber::uint_field(data@, done, 0x85),
            conf_rev == ber::uint_field(data@, done, 0x88),
        ensures
            all == done,
        decreases end - cur,
    {
        proof {
            ber::lemma_elements_step(data@, cur as int, end as int);
        }
        match read_tlv(data, cur, end) {
            None => {
                assert(all =~= done);
                break;
            },
            Some(tlv) => {
                let val: &[u8] = slice_subrange(data, tlv.start, tlv.end);
                if tlv.tag == 0x80 {
                    gocb_ref = Some(ber_string(val));
                } else if tlv.tag == 0x83 {
                    go_id = Some(ber_string(val));
                } else if tlv.tag == 0x85 {
                    st_num = Some(be_uint(val));
                } else if tlv.tag == 0x88 {
                    conf_rev = Some(be_uint(val));
                }
                proof {
                    let rest = ber::elements(data@, tlv.end as int, end as int);
                    assert(done + (seq![tlv@] + rest) =~= done.push(tlv@) + rest);
                    done = done.push(tlv@);
                }
                cur = tlv.end;
            },
        }
    }
    info.noasdu = st_num;
    info.confrev = conf_rev;
    // goID is the operator-facing name; gocbRef is the fallback when absent.
    info.svid = if go_id.is_some() {
        go_id
    } else {
        gocb_ref
    };
    info
}

/// Sampled Values APDU (IEC 61850-9-2).
///
/// Same 8-byte header shape as GOOSE, then a `savPdu` under BER tag `0x60`
/// (APPLICATION 0). Only the first ASDU is decoded: single-ASDU is
/// overwhelmingly the field case, and a multi-ASDU stream shares its svID and
/// confRev across ASDUs anyway.
pub fn parse_sv_payload(data: &[u8], off: usize) -> (r: AppInfo)
    ensures
        r@ == sv_header(data@, off as int),
{
    let mut info: AppInfo = AppInfo::default();
    if data.len() < 8 || off > data.len() - 8 {
        return info;
    }
    info.appid = u16be(data, off);
    let p: usize = off + 8;
    if p >= data.len() || data[p] != SV_PDU_TAG {
        return info;
    }
    info.sim = Some(data[off + 4] >= 0x80);

    let (body, end) = pdu_range(data, p);
    let ghost all = ber::elements(data@, body as int, end as int);
    let ghost mut done: Seq<ber::Element> = Seq::empty();
    let ghost mut asdu: Seq<ber::Element> = Seq::empty();
    let ghost header = info@;
    let mut cur: usize = body;
    assert(done + all =~= all);
    loop
        invariant_except_break
            all == done + ber::elements(data@, cur as int, end as int),
        invariant
            end <= data@.len(),
            asdu == asdu_elements(data@, done),
            info@ == (parse::AppInfoView {
                svid: ber::text_field(data@, asdu, 0x80),
                noasdu: ber::uint_field(data@, done, 0x80),
                confrev: ber::uint_field(data@, asdu, 0x83),
                ..header
            }),
        ensures
            all == done,
        decreases end - cur,
    {
        proof {
            ber::lemma_elements_step(data@, cur as int, end as int);
        }
        match read_tlv(data, cur, end) {
            None => {
                assert(all =~= done);
                break;
            },
            Some(tlv) => {
                let ghost before = asdu;
                if tlv.tag == 0x80 {
                    // noASDU [0] IMPLICIT INTEGER
                    info.noasdu = Some(be_uint(slice_subrange(data, tlv.start, tlv.end)));
                } else if tlv.tag == 0xA2 {
                    // seqOfAsdu [2] -> SEQUENCE (0x30) -> first ASDU
                    if let Some(a) = read_tlv(data, tlv.start, tlv.end) {
                        if a.tag == 0x30 {
                            parse_sv_asdu(data, a.start, a.end, &mut info);
                        }
                    }
                }
                proof {
                    let rest = ber::elements(data@, tlv.end as int, end as int);
                    let inner = first_asdu(data@, tlv@);
                    assert(done + (seq![tlv@] + rest) =~= done.push(tlv@) + rest);
                    assert(done.push(tlv@).drop_last() =~= done);
                    ber::lemma_last_of_add(before, inner, 0x80);
                    ber::lemma_last_of_add(before, inner, 0x83);
                    assert(before + Seq::<ber::Element>::empty() =~= before);
                    asdu = before + inner;
                    done = done.push(tlv@);
                }
                cur = tlv.end;
            },
        }
    }
    info
}

/// Walk one ASDU for svID `[0]` and confRev `[3]`; what it does not carry
/// stays as it was.
pub fn parse_sv_asdu(data: &[u8], start: usize, end: usize, info: &mut AppInfo)
    requires
        end <= data@.len(),
    ensures
        final(info)@ == ({
            let es = ber::elements(data@, start as int, end as int);
            let svid = ber::text_field(data@, es, 0x80);
            let confrev = ber::uint_field(data@, es, 0x83);
            parse::AppInfoView {
                svid: if svid is Some {
                    svid
                } else {
                    old(info)@.svid
                },
                confrev: if confrev is Some {
                    confrev
                } else {
                    old(info)@.confrev
                },
                ..old(info)@
            }
        }),
{
    let ghost all = ber::elements(data@, start as int, end as int);
    let ghost mut done: Seq<ber::Element> = Seq::empty();
    let mut cur: usize = start;
    assert(done + all =~= all);
    loop
        invariant_except_break
            all == done + ber::elements(data@, cur as int, end as int),
        invariant
            end <= data@.len(),
            info@.svid == (if ber::text_field(data@, done, 0x80) is Some {
                ber::text_field(data@, done, 0x80)
            } else {
                old(info)@.svid
            }),
            info@.confrev == (if ber::uint_field(data@, done, 0x83) is Some {
                ber::uint_field(data@, done, 0x83)
            } else {
                old(info)@.confrev
            }),
            info@.appid == old(info)@.appid,
            info@.noasdu == old(info)@.noasdu,
            info@.sim == old(info)@.sim,
        ensures
            all == done,
        decreases end - cur,
    {
        proof {
            ber::lemma_elements_step(data@, cur as int, end as int);
        }
        match read_tlv(data, cur, end) {
            None => {
                assert(all =~= done);
                break;
            },
            Some(tlv) => {
                let val: &[u8] = slice_subrange(data, tlv.start, tlv.end);
                if tlv.tag == 0x80 {
                    info.svid = Some(ber_string(val));
                } else if tlv.tag == 0x83 {
                    info.confrev = Some(be_uint(val));
                }
                proof {
                    let rest = ber::elements(data@, tlv.end as int, end as int);
                    assert(done + (seq![tlv@] + rest) =~= done.push(tlv@) + rest);
                    done = done.push(tlv@);
                }
                cur = tlv.end;
            },
        }
    }
}

/// Whether an application PDU of `tag` starts at `p`.
fn session_pdu_at(data: &[u8], p: usize, tag: u8) -> (r: bool)
    requires
        p < data@.len(),
    ensures
        r == is_session_pdu(data@, p as int, tag),
{
    let n: usize = data.len();
    if data[p] != tag {
        return false;
    }
    let (pdu_len, consumed) = ber_len(data, p + 1);
    if pdu_len == 0 || pdu_len >= 0x8000 {
        return false;
    }
    consumed < n - p - 1 && data[p + 1 + consumed] == 0x80
}

/// Locate an application PDU of `tag` inside a session-wrapped UDP payload.
///
/// Returns the offset of its tag octet. A candidate is accepted only when its
/// BER length is plausible *and* the next byte opens the body with tag `0x80`,
/// which rejects incidental tag bytes in the session header.
pub fn find_session_pdu(data: &[u8], udp_off: usize, tag: u8) -> (r: Option<usize>)
    ensures
        match r {
            Some(p) => payload_pdu(data@, udp_off as int, tag) == Some(p as int) && udp_off + 4 <= p
                < data@.len(),
            None => payload_pdu(data@, udp_off as int, tag) is None,
        },
{
    let n: usize = data.len();
    if n < 4 || udp_off > n - 4 {
        return None;
    }
    let stop: usize = if n - udp_off < SESSION_SCAN_WINDOW {
        n
    } else {
        udp_off + SESSION_SCAN_WINDOW
    };
    let mut p: usize = udp_off + 4;
    while p < stop
        invariant
            udp_off + 4 <= p,
            stop <= n == data@.len(),
            payload_pdu(data@, udp_off as int, tag) == session_pdu(
                data@,
                p as int,
                stop as int,
                tag,
            ),
        decreases stop - p,
    {
        if session_pdu_at(data, p, tag) {
            return Some(p);
        }
        p += 1;
    }
    None
}

/// R-GOOSE (routable GOOSE, IEC 61850-8-2) inside a UDP payload.
///
/// The `goosePdu` sits behind a Session PDU header whose length varies between
/// vendors, so rather than trusting a fixed offset this scans a bounded window
/// for it.
pub fn parse_rgoose_payload(data: &[u8], udp_off: usize) -> (r: AppInfo)
    ensures
        r@ == rgoose_header(data@, udp_off as int),
{
    let mut info: AppInfo = AppInfo::default();
    let p: usize = match find_session_pdu(data, udp_off, GOOSE_PDU_TAG) {
        None => {
            return info;
        },
        Some(p) => p,
    };
    // The 4-byte R-GOOSE APDU header (AppID + Length) immediately precedes
    // the PDU. Unlike L2 GOOSE there is no Reserved1 field, so the simulation
    // flag arrives as tag 0x87 inside the PDU instead.
    info.appid = u16be(data, p - 4);

    let (body, end) = pdu_range(data, p);
    let mut gocb_ref: Option<String> = None;
    let mut go_id: Option<String> = None;
    let mut st_num: Option<u64> = None;
    let mut conf_rev: Option<u64> = None;
    let mut sim: bool = false;
    let mut cur: usize = body;
    let ghost all = ber::elements(data@, body as int, end as int);
    let ghost mut done: Seq<ber::Element> = Seq::empty();
    assert(done + all =~= all);
    loop
        invariant_except_break
            all == done + ber::elements(data@, cur as int, end as int),
        invariant
            end <= data@.len(),
            parse::opt_text(gocb_ref) == ber::text_field(data@, done, 0x80),
            parse::opt_text(go_id) == ber::text_field(data@, done, 0x83),
            st_num == ber::uint_field(data@, done, 0x85),
            conf_rev == ber::uint_field(data@, done, 0x88),
            sim == bool_field(data@, done, 0x87),
        ensures
            all == done,
        decreases end - cur,
    {
        proof {
            ber::lemma_elements_step(data@, cur as int, end as int);
        }
        match read_tlv(data, cur, end) {
            None => {
                assert(all =~= done);
                break;
            },
            Some(tlv) => {
                let val: &[u8] = slice_subrange(data, tlv.start, tlv.end);
                if tlv.tag == 0x80 {
                    gocb_ref = Some(ber_string(val));
                } else if tlv.tag == 0x83 {
                    go_id = Some(ber_string(val));
                } else if tlv.tag == 0x85 {
                    st_num = Some(be_uint(val));
                } else if tlv.tag == 0x87 {
                    sim = any_set(data, tlv.start, tlv.end);
                } else if tlv.tag == 0x88 {
                    conf_rev = Some(be_uint(val));
                }
                proof {
                    let rest = ber::elements(data@, tlv.end as int, end as int);
                    assert(done + (seq![tlv@] + rest) =~= done.push(tlv@) + rest);
                    done = done.push(tlv@);
                }
                cur = tlv.end;
            },
        }
    }
    info.noasdu = st_num;
    info.confrev = conf_rev;
    info.svid = if go_id.is_some() {
        go_id
    } else {
        gocb_ref
    };
    info.sim = Some(sim);
    info
}

/// Whether any byte of `data[from..to]` is non-zero.
fn any_set(data: &[u8], from: usize, to: usize) -> (r: bool)
    requires
        from <= to <= data@.len(),
    ensures
        r == exists|i: int| from <= i < to && data@[i] != 0,
{
    let mut i: usize = from;
    while i < to
        invariant
            from <= i <= to <= data@.len(),
            forall|j: int| from <= j < i ==> data@[j] == 0,
        decreases to - i,
    {
        if data[i] != 0 {
            assert(data@[i as int] != 0);
            return true;
        }
        i += 1;
    }
    false
}

// ---- IPv4 and the unicast SCADA protocols: model --------------------------------

/// TPKT header (RFC 1006), which carries ISO/COTP and hence MMS.
pub open spec fn mms_signature(p: Seq<u8>) -> bool {
    p.len() >= 4 && p[0] == 0x03 && p[1] == 0x00 && ber::be16(p, 2) >= 4
}

/// IEC 60870-5-104 APCI: start byte 0x68 and a bounded length.
pub open spec fn iec104_signature(p: Seq<u8>) -> bool {
    p.len() >= 2 && p[0] == 0x68 && 4 <= p[1] <= 253
}

/// Modbus MBAP header: zero protocol id, bounded length, non-zero function.
pub open spec fn modbus_signature(p: Seq<u8>) -> bool {
    p.len() >= 8 && ber::be16(p, 2) == 0 && 2 <= ber::be16(p, 4) <= 253 && p[7] != 0
}

/// DNP3 data-link layer start bytes 0x05 0x64 and a valid length.
pub open spec fn dnp3_signature(p: Seq<u8>) -> bool {
    p.len() >= 3 && p[0] == 0x05 && p[1] == 0x64 && p[2] >= 5
}

/// What follows `off` in a frame.
pub open spec fn tail(d: Seq<u8>, off: int) -> Seq<u8> {
    if 0 <= off <= d.len() {
        d.subrange(off, d.len() as int)
    } else {
        Seq::empty()
    }
}

/// Whether the transport header at `t` names `port` as source or destination.
pub open spec fn on_port(d: Seq<u8>, t: int, port: u16) -> bool {
    ber::be16(d, t) == port || ber::be16(d, t + 2) == port
}

/// The TCP payload behind the header at `t`: the data offset is in 32-bit
/// words and must cover the fixed header.
pub open spec fn tcp_payload(d: Seq<u8>, t: int) -> Seq<u8> {
    if t + 12 < d.len() && d[t + 12] / 16 >= 5 {
        tail(d, t + (d[t + 12] / 16) * 4)
    } else {
        Seq::empty()
    }
}

/// The protocol of a TCP segment. A well-known port is only a hint: each
/// protocol must also match its own framing signature.
pub open spec fn tcp_protocol(d: Seq<u8>, t: int) -> Protocol {
    let p = tcp_payload(d, t);
    if on_port(d, t, PORT_MMS) && mms_signature(p) {
        Protocol::Mms
    } else if on_port(d, t, PORT_IEC104) && iec104_signature(p) {
        Protocol::Iec104
    } else if on_port(d, t, PORT_MODBUS) && modbus_signature(p) {
        Protocol::ModbusTcp
    } else if on_port(d, t, PORT_DNP3) && dnp3_signature(p) {
        Protocol::Dnp3
    } else {
        Protocol::Ipv4
    }
}

/// Whether the IPv4 header at `ip` is addressed to 224.0.0.0/4.
pub open spec fn is_multicast(d: Seq<u8>, ip: int) -> bool {
    0xE0 <= d[ip + 16] <= 0xEF
}

/// Where the payload behind the UDP header at `t` starts, which lies past the
/// end of a frame cut inside that header. An offset counts no further than a
/// `usize` does.
pub open spec fn udp_payload_at(t: int) -> int {
    lesser(t + 8, usize::MAX as int)
}

/// The protocol of a UDP datagram whose IPv4 header stands at `ip`.
///
/// Multicast membership alone is not enough for R-GOOSE or R-SV: the payload
/// must carry a session PDU, or the destination lie in one of the two /24s
/// conventionally allocated to IEC 61850.
pub open spec fn udp_protocol(d: Seq<u8>, ip: int, t: int) -> Protocol {
    let u = udp_payload_at(t);
    if on_port(d, t, PORT_NTP) {
        Protocol::Ntp
    } else if on_port(d, t, PORT_DNP3) && dnp3_signature(tail(d, u)) {
        Protocol::Dnp3
    } else if !is_multicast(d, ip) {
        Protocol::Ipv4
    } else if payload_pdu(d, u, GOOSE_PDU_TAG) is Some {
        Protocol::RGoose
    } else if payload_pdu(d, u, SV_PDU_TAG) is Some {
        Protocol::RSv
    } else if d[ip + 16] == 224 && d[ip + 17] == 0 && d[ip + 18] == 1 {
        Protocol::RGoose
    } else if d[ip + 16] == 224 && d[ip + 17] == 0 && d[ip + 18] == 2 {
        Protocol::RSv
    } else {
        Protocol::Ipv4
    }
}

/// The fragment offset in the IPv4 header at `ip`.
pub open spec fn fragment_offset(d: Seq<u8>, ip: int) -> int {
    (d[ip + 6] % 32) * 256 + d[ip + 7]
}

/// Where the transport header of the IPv4 packet at `ip` stands.
pub open spec fn transport_at(d: Seq<u8>, ip: int) -> int {
    ip + (d[ip] % 16) * 4
}

/// The protocol of an IPv4 packet. Non-first fragments carry no transport
/// header, so there is nothing to match a port against.
pub open spec fn ipv4_protocol(d: Seq<u8>, ip: int) -> Protocol {
    let t = transport_at(d, ip);
    if ip + 20 > d.len() || fragment_offset(d, ip) != 0 || t + 4 > d.len() {
        Protocol::Ipv4
    } else if d[ip + 9] == IPPROTO_TCP {
        tcp_protocol(d, t)
    } else if d[ip + 9] == IPPROTO_UDP {
        udp_protocol(d, ip, t)
    } else {
        Protocol::Ipv4
    }
}

// ---- IPv4 and the unicast SCADA protocols: readers --------------------------------

/// TPKT header (RFC 1006), which carries ISO/COTP and hence MMS.
pub fn looks_like_mms(payload: &[u8]) -> (r: bool)
    ensures
        r == mms_signature(payload@),
{
    payload.len() >= 4 && payload[0] == 0x03 && payload[1] == 0x00 && (payload[2] > 0 || payload[3]
        >= 4)
}

/// IEC 60870-5-104 APCI: start byte 0x68 then a bounded length.
pub fn looks_like_iec104(payload: &[u8]) -> (r: bool)
    ensures
        r == iec104_signature(payload@),
{
    payload.len() >= 2 && payload[0] == 0x68 && 4 <= payload[1] && payload[1] <= 253
}

/// Modbus MBAP header: zero protocol id, bounded length, non-zero function.
pub fn looks_like_modbus(payload: &[u8]) -> (r: bool)
    ensures
        r == modbus_signature(payload@),
{
    payload.len() >= 8 && payload[2] == 0 && payload[3] == 0 && payload[4] == 0 && 2 <= payload[5]
        && payload[5] <= 253 && payload[7] != 0
}

/// DNP3 data-link layer start bytes 0x05 0x64 then a valid length.
pub fn looks_like_dnp3(payload: &[u8]) -> (r: bool)
    ensures
        r == dnp3_signature(payload@),
{
    payload.len() >= 3 && payload[0] == 0x05 && payload[1] == 0x64 && payload[2] >= 5
}

/// The bytes of `data` from `off` on, none when it lies past the end.
fn tail_of(data: &[u8], off: usize) -> (r: &[u8])
    ensures
        r@ == tail(data@, off as int),
{
    let n: usize = data.len();
    let from: usize = if off <= n {
        off
    } else {
        n
    };
    let r: &[u8] = slice_subrange(data, from, n);
    assert(r@ =~= tail(data@, off as int));
    r
}

/// Whether the transport header at `t_off` names `port`.
fn names_port(data: &[u8], t_off: usize, port: u16) -> (r: bool)
    requires
        t_off + 4 <= data.len(),
    ensures
        r == on_port(data@, t_off as int, port),
{
    u16be(data, t_off) == Some(port) || u16be(data, t_off + 2) == Some(port)
}

fn classify_tcp(data: &[u8], t_off: usize) -> (r: Protocol)
    requires
        t_off + 4 <= data.len(),
    ensures
        r == tcp_protocol(data@, t_off as int),
{
    let n: usize = data.len();
    // TCP data offset is in 32-bit words and must cover the fixed header.
    let start: usize = if n - t_off > 12 && data[t_off + 12] / 16 >= 5 {
        let header: usize = (data[t_off + 12] / 16) as usize * 4;
        if header <= n - t_off {
            t_off + header
        } else {
            n
        }
    } else {
        n
    };
    let payload: &[u8] = tail_of(data, start);
    assert(payload@ =~= tcp_payload(data@, t_off as int));
    if names_port(data, t_off, PORT_MMS) && looks_like_mms(payload) {
        Protocol::Mms
    } else if names_port(data, t_off, PORT_IEC104) && looks_like_iec104(payload) {
        Protocol::Iec104
    } else if names_port(data, t_off, PORT_MODBUS) && looks_like_modbus(payload) {
        Protocol::ModbusTcp
    } else if names_port(data, t_off, PORT_DNP3) && looks_like_dnp3(payload) {
        Protocol::Dnp3
    } else {
        Protocol::Ipv4
    }
}

fn classify_udp(data: &[u8], ip_off: usize, t_off: usize) -> (r: Protocol)
    requires
        ip_off + 20 <= data.len(),
        t_off + 4 <= data.len(),
    ensures
        r == udp_protocol(data@, ip_off as int, t_off as int),
{
    if names_port(data, t_off, PORT_NTP) {
        return Protocol::Ntp;
    }
    let payload: usize = udp_payload_of(t_off);
    if names_port(data, t_off, PORT_DNP3) && looks_like_dnp3(tail_of(data, payload)) {
        return Protocol::Dnp3;
    }
    // 224.0.0.0/4: IEC 61850-8-2/9-3 run over UDP multicast.
    //
    // Membership of that range is nowhere near sufficient on its own: it also
    // covers mDNS (224.0.0.251), SSDP (239.255.255.250), IGMP and every other
    // ordinary IP multicast. Confirm the payload actually carries a session
    // PDU first, exactly as the unicast protocols must match their own framing
    // before their port is trusted.
    let dst1: u8 = data[ip_off + 16];
    if dst1 < 0xE0 || dst1 > 0xEF {
        return Protocol::Ipv4;
    }
    if find_session_pdu(data, payload, GOOSE_PDU_TAG).is_some() {
        return Protocol::RGoose;
    }
    if find_session_pdu(data, payload, SV_PDU_TAG).is_some() {
        return Protocol::RSv;
    }
    // Fall back to the conventional IEC allocation for a session header longer
    // than the scan window. Deliberately narrow: only 224.0.1.0/24 and
    // 224.0.2.0/24, which no general-purpose multicast protocol uses.
    if dst1 == 224 && data[ip_off + 17] == 0 && data[ip_off + 18] == 1 {
        Protocol::RGoose
    } else if dst1 == 224 && data[ip_off + 17] == 0 && data[ip_off + 18] == 2 {
        Protocol::RSv
    } else {
        Protocol::Ipv4
    }
}

fn udp_payload_of(t_off: usize) -> (r: usize)
    ensures
        r == udp_payload_at(t_off as int),
{
    if t_off <= usize::MAX - 8 {
        t_off + 8
    } else {
        usize::MAX
    }
}

/// Classify an IPv4 packet, returning the protocol and, for R-GOOSE, the
/// offset of the UDP payload so the caller can decode the APDU.
pub fn classify_ipv4(data: &[u8], ip_off: usize) -> (r: (Protocol, Option<usize>))
    ensures
        r.0 == ipv4_protocol(data@, ip_off as int),
        match r.1 {
            Some(u) => r.0 == Protocol::RGoose && u == udp_payload_at(
                transport_at(data@, ip_off as int),
            ),
            None => r.0 != Protocol::RGoose,
        },
{
    let n: usize = data.len();
    if n < 20 || ip_off > n - 20 {
        return (Protocol::Ipv4, None);
    }
    // Non-first fragments carry no transport header, so there is nothing to
    // match a port against.
    if data[ip_off + 6] % 32 != 0 || data[ip_off + 7] != 0 {
        return (Protocol::Ipv4, None);
    }
    let ihl: usize = (data[ip_off] % 16) as usize * 4;
    if ihl > n - ip_off || n - ip_off - ihl < 4 {
        return (Protocol::Ipv4, None);
    }
    let t_off: usize = ip_off + ihl;
    let ip_proto: u8 = data[ip_off + 9];
    if ip_proto == IPPROTO_TCP {
        (classify_tcp(data, t_off), None)
    } else if ip_proto == IPPROTO_UDP {
        let proto: Protocol = classify_udp(data, ip_off, t_off);
        if proto == Protocol::RGoose {
            (proto, Some(udp_payload_of(t_off)))
        } else {
            (proto, None)
        }
    } else {
        (Protocol::Ipv4, None)
    }
}

// ---- Frames: model --------------------------------------------------------------------

/// Whether the EtherType at `at` opens a complete 802.1Q/802.1ad tag.
pub open spec fn opens_vlan_tag(d: Seq<u8>, at: int) -> bool {
    (ber::be16(d, at) == ET_VLAN || ber::be16(d, at) == ET_QINQ) && at + 6 <= d.len()
}

/// The VLAN tags from the EtherType at `at` on, as identifier and priority.
pub open spec fn vlan_stack(d: Seq<u8>, at: int) -> Seq<(u16, u8)>
    decreases d.len() - at,
{
    if opens_vlan_tag(d, at) {
        seq![((ber::be16(d, at + 2) % 4096) as u16, (d[at + 2] / 32) as u8)] + vlan_stack(d, at + 4)
    } else {
        Seq::empty()
    }
}

/// Where the EtherType behind all VLAN tags stands.
pub open spec fn untagged_at(d: Seq<u8>, at: int) -> int
    decreases d.len() - at,
{
    if opens_vlan_tag(d, at) {
        untagged_at(d, at + 4)
    } else {
        at
    }
}

/// Whether the EtherType at `at` opens a complete HSR tag: two bytes of Path
/// and LSDUsize, two of SeqNr, and the embedded EtherType.
pub open spec fn opens_hsr_tag(d: Seq<u8>, at: int) -> bool {
    ber::be16(d, at) == ET_HSR && at + 8 <= d.len()
}

/// The redundancy of a frame whose EtherType behind the VLAN tags stands at
/// `at`: an HSR tag there, or else a PRP trailer at the end of the frame.
pub open spec fn frame_redundancy(d: Seq<u8>, at: int) -> Redundancy {
    if opens_hsr_tag(d, at) {
        Redundancy::Hsr((d[at + 2] / 16) as u8)
    } else if ber::be16(d, d.len() - 2) == PRP_SUF {
        Redundancy::Prp((d[d.len() - 4] / 16) as u8)
    } else {
        Redundancy::Absent
    }
}

/// Where the EtherType of the payload stands, behind VLAN and HSR tags.
pub open spec fn payload_type_at(d: Seq<u8>) -> int {
    let at = untagged_at(d, 12);
    if opens_hsr_tag(d, at) {
        at + 6
    } else {
        at
    }
}

/// The protocol of a payload at `off` under the given EtherType. Values at or
/// below 1500 are an IEEE 802.3 length, where a DSAP and SSAP of 0x42 name a
/// spanning-tree BPDU.
pub open spec fn payload_protocol(d: Seq<u8>, etype: u16, off: int) -> Protocol {
    if etype == ET_GOOSE {
        Protocol::Goose
    } else if etype == ET_SV {
        Protocol::SampledValues
    } else if etype == ET_GSSE {
        Protocol::Gsse
    } else if etype == ET_PTP {
        Protocol::Ptp
    } else if etype == ET_LLDP {
        Protocol::Lldp
    } else if etype == ET_ARP {
        Protocol::Arp
    } else if etype == ET_IPV4 {
        ipv4_protocol(d, off)
    } else if etype == ET_IPV6 {
        Protocol::Ipv6
    } else if etype <= 1500 && ber::byte_is(d, off, 0x42) && ber::byte_is(d, off + 1, 0x42) {
        Protocol::Rstp
    } else {
        Protocol::Other
    }
}

/// The application header of a payload of the given protocol at `off`.
pub open spec fn payload_header(d: Seq<u8>, proto: Protocol, off: int) -> parse::AppInfoView {
    match proto {
        Protocol::Goose => goose_header(d, off),
        Protocol::SampledValues => sv_header(d, off),
        Protocol::RGoose => rgoose_header(d, udp_payload_at(transport_at(d, off))),
        _ => parse::no_app(),
    }
}

/// What a raw Ethernet frame is.
pub open spec fn classified(d: Seq<u8>) -> parse::FrameView {
    if d.len() < 14 {
        parse::unread_frame()
    } else {
        let at = payload_type_at(d);
        let proto = payload_protocol(d, ber::be16(d, at), at + 2);
        parse::FrameView {
            proto,
            vlans: parse::kept_tags(vlan_stack(d, 12)),
            redundancy: frame_redundancy(d, untagged_at(d, 12)),
            app: payload_header(d, proto, at + 2),
        }
    }
}

// ---- The classifier ------------------------------------------------------------------

/// Classify one raw Ethernet frame.
///
/// Never fails: anything unrecognised, truncated or malformed classifies as
/// [`Protocol::Other`] with whatever framing metadata was readable.
pub fn parse_frame(data: &[u8]) -> (r: Frame)
    ensures
        r@ == classified(data@),
{
    let mut frame: Frame = Frame::default();
    let n: usize = data.len();
    // Below a full Ethernet header there is nothing to classify.
    if n < 14 {
        return frame;
    }
    // --- 802.1Q / 802.1ad tags. Looping is what makes QinQ work. ---------
    let ghost stack = vlan_stack(data@, 12);
    let ghost mut seen: Seq<(u16, u8)> = Seq::empty();
    let mut vlans: VlanTags = VlanTags::default();
    let mut at: usize = 12;
    assert(seen + stack =~= stack);
    loop
        invariant_except_break
            stack == seen + vlan_stack(data@, at as int),
        invariant
            n == data@.len(),
            at + 2 <= n,
            untagged_at(data@, at as int) == untagged_at(data@, 12),
            vlans@ == parse::kept_tags(seen),
        ensures
            stack == seen,
            at == untagged_at(data@, 12),
        decreases n - at,
    {
        let etype: Option<u16> = u16be(data, at);
        if !(etype == Some(ET_VLAN) || etype == Some(ET_QINQ)) || n - at < 6 {
            assert(stack =~= seen);
            break;
        }
        let hi: u8 = data[at + 2];
        let id: u16 = (hi % 16) as u16 * 256 + data[at + 3] as u16;
        let pcp: u8 = hi / 32;
        vlans.push(id, pcp);
        proof {
            let tag = (id, pcp);
            let rest = vlan_stack(data@, at + 4);
            assert(id == ber::be16(data@, at + 2) % 4096);
            assert(stack == seen + (seq![tag] + rest));
            assert(seen + (seq![tag] + rest) =~= seen.push(tag) + rest);
            assert(parse::kept_tags(seen.push(tag)) =~= vlans@);
            seen = seen.push(tag);
        }
        at += 4;
    }
    frame.vlans = vlans;

    // --- HSR in-frame tag (IEC 62439-3 clause 5) ------------------------
    // 2 bytes Path/LSDUsize, 2 bytes SeqNr, 2 bytes embedded EtherType.
    let hsr: bool = u16be(data, at) == Some(ET_HSR) && n - at >= 8;
    if hsr {
        frame.redundancy = Redundancy::Hsr(data[at + 2] / 16);
        at += 6;
    } else if u16be(data, n - 2) == Some(PRP_SUF) {
        // --- PRP Redundancy Control Trailer (IEC 62439-3 clause 4) ------
        // A 6-byte trailer at the *end* of the frame rather than an inline
        // tag, so it neither consumes offset nor changes the payload
        // EtherType.
        frame.redundancy = Redundancy::Prp(data[n - 4] / 16);
    }
    // --- Payload classification by the resolved EtherType ----------------

    let etype: u16 = data[at] as u16 * 256 + data[at + 1] as u16;
    let off: usize = at + 2;
    if etype == ET_GOOSE {
        frame.proto = Protocol::Goose;
        frame.app = parse_goose_payload(data, off);
    } else if etype == ET_SV {
        frame.proto = Protocol::SampledValues;
        frame.app = parse_sv_payload(data, off);
    } else if etype == ET_GSSE {
        frame.proto = Protocol::Gsse;
    } else if etype == ET_PTP {
        frame.proto = Protocol::Ptp;
    } else if etype == ET_LLDP {
        frame.proto = Protocol::Lldp;
    } else if etype == ET_ARP {
        frame.proto = Protocol::Arp;
    } else if etype == ET_IPV4 {
        let (proto, payload) = classify_ipv4(data, off);
        frame.proto = proto;
        if let Some(u) = payload {
            frame.app = parse_rgoose_payload(data, u);
        }
    } else if etype == ET_IPV6 {
        frame.proto = Protocol::Ipv6;
    } else if etype <= 1500 && n - off >= 2 && data[off] == 0x42 && data[off + 1] == 0x42 {
        // Values at or below 1500 are an IEEE 802.3 length field, not an
        // EtherType. DSAP == SSAP == 0x42 is the LLC SAP for STP/RSTP/MSTP.
        frame.proto = Protocol::Rstp;
    }
    frame
}

// ---- Laws ---------------------------------------------------------------------------

/// Whether text holds only printable ASCII, so that it can neither move a
/// cursor nor inject an escape sequence.
pub open spec fn printable(s: Seq<char>) -> bool {
    forall|i: int| 0 <= i < s.len() ==> ' ' <= #[trigger] s[i] <= '~'
}

/// The identifier of any frame is printable, whatever bytes it carried.
pub proof fn law_identifiers_are_printable(d: Seq<u8>)
    ensures
        classified(d).app.svid matches Some(s) ==> printable(s),
{
    assert forall|es: Seq<ber::Element>, tag: u8|
        (#[trigger] ber::text_field(d, es, tag)) matches Some(s) ==> printable(s) by {
        if let Some(e) = ber::last_of(es, tag) {
            let v = ber::value_of(d, e);
            assert forall|i: int| 0 <= i < ber::shown(v).len() implies ' ' <= (
            #[trigger] ber::shown(v)[i]) <= '~' by {
                assert(ber::shown(v)[i] == ber::shown_byte(v[i]));
            }
        }
    }
}

proof fn lemma_vlan_stack_in_range(d: Seq<u8>, at: int)
    ensures
        forall|i: int|
            0 <= i < vlan_stack(d, at).len() ==> (#[trigger] vlan_stack(d, at)[i]).0 <= 4095
                && vlan_stack(d, at)[i].1 <= 7,
    decreases d.len() - at,
{
    if opens_vlan_tag(d, at) {
        lemma_vlan_stack_in_range(d, at + 4);
        let head = seq![((ber::be16(d, at + 2) % 4096) as u16, (d[at + 2] / 32) as u8)];
        let rest = vlan_stack(d, at + 4);
        assert forall|i: int| 0 <= i < (head + rest).len() implies (#[trigger] (head + rest)[i]).0
            <= 4095 && (head + rest)[i].1 <= 7 by {
            if i > 0 {
                assert((head + rest)[i] == rest[i - 1]);
            }
        }
    }
}

/// Every reported tag is a twelve-bit identifier with a three-bit priority,
/// and a stack never exceeds its capacity.
pub proof fn law_vlan_tags_are_in_range(d: Seq<u8>)
    ensures
        classified(d).vlans.len() <= parse::MAX_VLAN_TAGS,
        forall|i: int|
            0 <= i < classified(d).vlans.len() ==> (#[trigger] classified(d).vlans[i]).0 <= 4095
                && classified(d).vlans[i].1 <= 7,
{
    lemma_vlan_stack_in_range(d, 12);
}

/// The lane of a redundant frame is a nibble.
pub proof fn law_lanes_are_nibbles(d: Seq<u8>)
    ensures
        match classified(d).redundancy {
            Redundancy::Absent => true,
            Redundancy::Hsr(p) => p <= 0xF,
            Redundancy::Prp(l) => l <= 0xF,
        },
{
}

/// An HSR tag decides the redundancy, whatever the frame ends with.
pub proof fn law_hsr_takes_precedence(d: Seq<u8>)
    requires
        d.len() >= 14,
        opens_hsr_tag(d, untagged_at(d, 12)),
    ensures
        classified(d).redundancy == Redundancy::Hsr((d[untagged_at(d, 12) + 2] / 16) as u8),
{
}

/// Whether a frame ends in the middle of a VLAN or HSR tag.
pub open spec fn cut_inside_a_tag(d: Seq<u8>) -> bool {
    let at = untagged_at(d, 12);
    let etype = ber::be16(d, at);
    etype == ET_VLAN || etype == ET_QINQ || (etype == ET_HSR && !opens_hsr_tag(d, at))
}

proof fn lemma_untagged_at_fits(d: Seq<u8>, at: int)
    requires
        0 <= at,
        at + 2 <= d.len(),
    ensures
        at <= untagged_at(d, at),
        untagged_at(d, at) + 2 <= d.len(),
        !opens_vlan_tag(d, untagged_at(d, at)),
    decreases d.len() - at,
{
    if opens_vlan_tag(d, at) {
        lemma_untagged_at_fits(d, at + 4);
    }
}

proof fn lemma_extended_stack(d: Seq<u8>, more: Seq<u8>, at: int)
    requires
        0 <= at,
        at + 2 <= d.len(),
        ({
            let etype = ber::be16(d, untagged_at(d, at));
            etype != ET_VLAN && etype != ET_QINQ
        }),
    ensures
        untagged_at(d + more, at) == untagged_at(d, at),
        vlan_stack(d + more, at) == vlan_stack(d, at),
    decreases d.len() - at,
{
    let longer = d + more;
    assert(longer[at] == d[at] && longer[at + 1] == d[at + 1]);
    if opens_vlan_tag(d, at) {
        assert(longer[at + 2] == d[at + 2] && longer[at + 3] == d[at + 3]);
        lemma_extended_stack(d, more, at + 4);
    }
}

/// Bytes appended to a frame, such as a PRP trailer, move neither the payload
/// nor its EtherType, and leave the VLAN tags as they were. A frame that was
/// cut inside a tag is left out: there the appended bytes complete the tag.
pub proof fn law_a_trailer_does_not_move_the_payload(d: Seq<u8>, trailer: Seq<u8>)
    requires
        d.len() >= 14,
        !cut_inside_a_tag(d),
    ensures
        payload_type_at(d + trailer) == payload_type_at(d),
        ber::be16(d + trailer, payload_type_at(d)) == ber::be16(d, payload_type_at(d)),
        classified(d + trailer).vlans == classified(d).vlans,
{
    let at = untagged_at(d, 12);
    let longer = d + trailer;
    lemma_untagged_at_fits(d, 12);
    lemma_extended_stack(d, trailer, 12);
    assert(longer[at] == d[at] && longer[at + 1] == d[at + 1]);
    let p = payload_type_at(d);
    assert(longer[p] == d[p] && longer[p + 1] == d[p + 1]);
}

/// A well-known port alone never names a protocol: the payload must carry that
/// protocol's own framing.
pub proof fn law_port_alone_is_not_enough(d: Seq<u8>, ip: int)
    ensures
        ({
            let t = transport_at(d, ip);
            let tcp = tcp_payload(d, t);
            let udp = tail(d, udp_payload_at(t));
            match ipv4_protocol(d, ip) {
                Protocol::Mms => on_port(d, t, PORT_MMS) && mms_signature(tcp),
                Protocol::Iec104 => on_port(d, t, PORT_IEC104) && iec104_signature(tcp),
                Protocol::ModbusTcp => on_port(d, t, PORT_MODBUS) && modbus_signature(tcp),
                Protocol::Dnp3 => on_port(d, t, PORT_DNP3) && (dnp3_signature(tcp)
                    || dnp3_signature(udp)),
                _ => true,
            }
        }),
{
}

/// Routable GOOSE and Sampled Values are named only for multicast packets that
/// carry a session PDU or lie in the conventional IEC ranges.
pub proof fn law_routable_protocols_are_multicast(d: Seq<u8>, ip: int)
    requires
        ipv4_protocol(d, ip) == Protocol::RGoose || ipv4_protocol(d, ip) == Protocol::RSv,
    ensures
        is_multicast(d, ip),
        ({
            let u = udp_payload_at(transport_at(d, ip));
            ||| payload_pdu(d, u, GOOSE_PDU_TAG) is Some
            ||| payload_pdu(d, u, SV_PDU_TAG) is Some
            ||| d[ip + 16] == 224 && d[ip + 17] == 0 && (d[ip + 18] == 1 || d[ip + 18] == 2)
        }),
{
}

/// A packet that is not the first fragment stays plain IPv4.
pub proof fn law_later_fragments_are_not_classified(d: Seq<u8>, ip: int)
    requires
        fragment_offset(d, ip) != 0,
    ensures
        ipv4_protocol(d, ip) == Protocol::Ipv4,
{
}

/// Only GOOSE, Sampled Values and R-GOOSE frames carry an application header.
pub proof fn law_only_iec61850_frames_have_a_header(d: Seq<u8>)
    requires
        classified(d).app != parse::no_app(),
    ensures
        ({
            let p = classified(d).proto;
            p == Protocol::Goose || p == Protocol::SampledValues || p == Protocol::RGoose
        }),
{
}

} // verus!
