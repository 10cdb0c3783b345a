//! What the bytes of a frame mean, byte by byte.
use crate::ber;
use crate::classify;
use crate::parse;
use crate::parse::{Protocol, Redundancy};
use vstd::prelude::*;

verus! {

/// The number in two bytes, the more significant one first.
pub open spec fn number16(d: Seq<u8>, at: int) -> int {
    d[at] * 256 + d[at + 1]
}

// ---- IPv4 -------------------------------------------------------------------------------

/// Whether an IPv4 packet that is no later fragment stands at `ip`, carrying
/// the given transport protocol with its ports at `t`.
pub open spec fn carries(d: Seq<u8>, ip: int, transport: u8, t: int) -> bool {
    &&& 0 <= ip
    &&& ip + 20 <= d.len()
    &&& d[ip + 6] % 32 == 0
    &&& d[ip + 7] == 0
    &&& d[ip + 9] == transport
    &&& t == ip + 4 * (d[ip] % 16)
    &&& t + 4 <= d.len()
}

/// Whether either port of the transport header at `t` is the given one.
pub open spec fn either_port(d: Seq<u8>, t: int, port: int) -> bool {
    d[t] * 256 + d[t + 1] == port || d[t + 2] * 256 + d[t + 3] == port
}

/// A TCP segment to or from port 102 is MMS if its payload opens with a TPKT
/// header, to or from 2404 IEC 104 if with an APCI, to or from 502 Modbus if
/// with an MBAP header, to or from 20000 DNP3 if with a link header; whichever
/// side of the segment the port stands on. Every other segment is plain IPv4.
pub proof fn law_tcp_segments_are_named_by_port_and_framing(d: Seq<u8>, ip: int, t: int, q: int)
    requires
        carries(d, ip, 6, t),
        t + 12 < d.len(),
        d[t + 12] / 16 >= 5,
        q == t + 4 * (d[t + 12] / 16),
        q <= d.len(),
    ensures
        ({
            let n = d.len() - q;
            let p = classify::ipv4_protocol(d, ip);
            let tpkt = n >= 4 && d[q] == 3 && d[q + 1] == 0 && d[q + 2] * 256 + d[q + 3] >= 4;
            let apci = n >= 2 && d[q] == 0x68 && d[q + 1] >= 4 && d[q + 1] <= 253;
            let length = d[q + 4] * 256 + d[q + 5];
            let mbap = n >= 8 && d[q + 2] == 0 && d[q + 3] == 0 && 2 <= length <= 253 && d[q + 7]
                != 0;
            let link = n >= 3 && d[q] == 5 && d[q + 1] == 0x64 && d[q + 2] >= 5;
            let iec104 = either_port(d, t, 2404) && apci;
            &&& p == Protocol::Mms <==> either_port(d, t, 102) && tpkt
            &&& p == Protocol::Iec104 <==> iec104
            &&& p == Protocol::ModbusTcp <==> either_port(d, t, 502) && mbap && !iec104
            &&& p == Protocol::Dnp3 <==> either_port(d, t, 20000) && link
            &&& p == Protocol::Mms || p == Protocol::Iec104 || p == Protocol::ModbusTcp || p
                == Protocol::Dnp3 || p == Protocol::Ipv4
        }),
{
    let body = d.subrange(q, d.len() as int);
    let n = d.len() - q;
    assert(classify::tcp_payload(d, t) == body);
    assert(forall|i: int| 0 <= i < n ==> #[trigger] body[i] == d[q + i]);
    if n >= 1 {
        assert(body[0] == d[q]);
    }
    if n >= 2 {
        assert(body[1] == d[q + 1]);
    }
    if n >= 3 {
        assert(body[2] == d[q + 2]);
    }
    if n >= 4 {
        assert(body[3] == d[q + 3]);
    }
    if n >= 8 {
        assert(body[4] == d[q + 4] && body[5] == d[q + 5] && body[7] == d[q + 7]);
    }
}

/// A TCP segment whose header is cut, or claims less than its fixed part or
/// more than there is, has no payload to go by and is plain IPv4.
pub proof fn law_tcp_without_payload_is_plain(d: Seq<u8>, ip: int, t: int)
    requires
        carries(d, ip, 6, t),
        t + 12 >= d.len() || d[t + 12] / 16 < 5 || t + 4 * (d[t + 12] / 16) >= d.len(),
    ensures
        classify::ipv4_protocol(d, ip) == Protocol::Ipv4,
{
}

/// Whether an application PDU of the given tag stands at `p`: its length is
/// between one and 32767, and its body opens with 0x80.
pub open spec fn framed_pdu(d: Seq<u8>, p: int, tag: u8) -> bool {
    &&& 0 <= p
    &&& p + 1 < d.len()
    &&& d[p] == tag
    &&& if d[p + 1] < 128 {
        d[p + 1] > 0 && p + 2 < d.len() && d[p + 2] == 0x80
    } else {
        let n = d[p + 1] - 128;
        &&& p + 2 + n < d.len()
        &&& 0 < ber::be_value(d.subrange(p + 2, p + 2 + n)) < 0x8000
        &&& d[p + 2 + n] == 0x80
    }
}

/// Whether such a PDU starts between the fourth and the 128th byte from `u` on.
pub open spec fn session_holds(d: Seq<u8>, u: int, tag: u8) -> bool {
    exists|p: int| u + 4 <= p < u + 128 && #[trigger] framed_pdu(d, p, tag)
}

proof fn lemma_framed_pdu(d: Seq<u8>, p: int, tag: u8)
    requires
        0 <= p < d.len(),
    ensures
        classify::is_session_pdu(d, p, tag) <==> framed_pdu(d, p, tag),
{
    if p + 1 < d.len() && d[p + 1] >= 0x80 {
        let n = d[p + 1] - 0x80;
        if p + 2 + n <= d.len() {
            assert(0x8000 <= usize::MAX);
        }
    }
}

proof fn lemma_session_pdu(d: Seq<u8>, from: int, stop: int, tag: u8)
    requires
        0 <= from,
        stop <= d.len(),
    ensures
        match classify::session_pdu(d, from, stop, tag) {
            Some(p) => from <= p < stop && framed_pdu(d, p, tag) && forall|i: int|
                from <= i < p ==> !#[trigger] framed_pdu(d, i, tag),
            None => forall|i: int| from <= i < stop ==> !#[trigger] framed_pdu(d, i, tag),
        },
    decreases stop - from,
{
    if from < stop {
        lemma_framed_pdu(d, from, tag);
        if !classify::is_session_pdu(d, from, tag) {
            lemma_session_pdu(d, from + 1, stop, tag);
        }
    }
}

/// The first PDU in the scan window of a payload, if there is one.
pub proof fn lemma_payload_pdu(d: Seq<u8>, u: int, tag: u8)
    requires
        0 <= u,
    ensures
        match classify::payload_pdu(d, u, tag) {
            Some(p) => u + 4 <= p < u + 128 && framed_pdu(d, p, tag) && forall|i: int|
                u + 4 <= i < p ==> !#[trigger] framed_pdu(d, i, tag),
            None => !session_holds(d, u, tag),
        },
{
    let stop = if u + 128 <= d.len() {
        u + 128
    } else {
        d.len() as int
    };
    lemma_session_pdu(d, u + 4, stop, tag);
}

/// A UDP datagram to or from port 123 is NTP; else, to or from 20000 with a
/// link header as payload, DNP3. Else, sent to a multicast address, it is
/// R-GOOSE if a GOOSE PDU stands in its session payload, or else R-SV if a
/// Sampled Values PDU does; and without either the addresses 224.0.1.x and
/// 224.0.2.x tell. Every other datagram is plain IPv4.
pub proof fn law_udp_datagrams_are_named_by_port_and_payload(d: Seq<u8>, ip: int, t: int)
    requires
        carries(d, ip, 17, t),
        d.len() + 4 <= usize::MAX,
    ensures
        ({
            let u = t + 8;
            let p = classify::ipv4_protocol(d, ip);
            let link = u + 3 <= d.len() && d[u] == 5 && d[u + 1] == 0x64 && d[u + 2] >= 5;
            let ntp = either_port(d, t, 123);
            let dnp3 = !ntp && either_port(d, t, 20000) && link;
            let other = !ntp && !dnp3;
            let multicast = 224 <= d[ip + 16] <= 239;
            let goose = session_holds(d, u, 0x61);
            let sv = session_holds(d, u, 0x60);
            let iec = d[ip + 16] == 224 && d[ip + 17] == 0;
            &&& p == Protocol::Ntp <==> ntp
            &&& p == Protocol::Dnp3 <==> dnp3
            &&& p == Protocol::RGoose <==> other && multicast && (goose || !sv && iec && d[ip + 18]
                == 1)
            &&& p == Protocol::RSv <==> other && multicast && !goose && (sv || iec && d[ip + 18]
                == 2)
            &&& p == Protocol::Ntp || p == Protocol::Dnp3 || p == Protocol::RGoose || p
                == Protocol::RSv || p == Protocol::Ipv4
        }),
{
    let u = t + 8;
    lemma_payload_pdu(d, u, 0x61);
    lemma_payload_pdu(d, u, 0x60);
    if u <= d.len() {
        let body = d.subrange(u, d.len() as int);
        if body.len() >= 3 {
            assert(body[0] == d[u] && body[1] == d[u + 1] && body[2] == d[u + 2]);
        }
    }
}

/// Any other packet is plain IPv4: a later fragment, one whose header or ports
/// are cut, and one that carries neither TCP nor UDP.
pub proof fn law_other_packets_are_plain(d: Seq<u8>, ip: int)
    requires
        0 <= ip,
        ip + 20 > d.len() || d[ip + 6] % 32 != 0 || d[ip + 7] != 0 || ip + 4 * (d[ip] % 16) + 4
            > d.len() || d[ip + 9] != 6 && d[ip + 9] != 17,
    ensures
        classify::ipv4_protocol(d, ip) == Protocol::Ipv4,
{
}

/// A packet with the ports at `t` exchanged.
pub open spec fn with_ports_swapped(d: Seq<u8>, t: int) -> Seq<u8> {
    d.update(t, d[t + 2]).update(t + 1, d[t + 3]).update(t + 2, d[t]).update(t + 3, d[t + 1])
}

/// A reply is named like its request: exchanging source and destination port
/// of a segment or datagram never changes its protocol.
pub proof fn law_a_reply_is_named_like_its_request(d: Seq<u8>, ip: int, t: int)
    requires
        carries(d, ip, 6, t) || carries(d, ip, 17, t),
        d[ip] % 16 >= 5,
        d.len() + 4 <= usize::MAX,
    ensures
        classify::ipv4_protocol(with_ports_swapped(d, t), ip) == classify::ipv4_protocol(d, ip),
{
    let e = with_ports_swapped(d, t);
    assert(forall|i: int|
        0 <= i < d.len() && !(t <= i < t + 4) ==> #[trigger] e[i] == d[i]);
    if d[ip + 9] == 6 {
        assert(classify::tcp_payload(e, t) =~= classify::tcp_payload(d, t));
    } else {
        let u = classify::udp_payload_at(t);
        assert(classify::tail(e, u) =~= classify::tail(d, u));
        lemma_same_session(d, e, u, 0x61);
        lemma_same_session(d, e, u, 0x60);
    }
}

proof fn lemma_same_session(d: Seq<u8>, e: Seq<u8>, u: int, tag: u8)
    requires
        0 <= u,
        d.len() == e.len(),
        forall|i: int| u <= i < d.len() ==> #[trigger] e[i] == d[i],
    ensures
        classify::payload_pdu(e, u, tag) is Some <==> classify::payload_pdu(d, u, tag) is Some,
{
    lemma_payload_pdu(d, u, tag);
    lemma_payload_pdu(e, u, tag);
    assert forall|p: int| u + 4 <= p implies framed_pdu(d, p, tag) == #[trigger] framed_pdu(
        e,
        p,
        tag,
    ) by {
        if p + 1 < d.len() && d[p + 1] >= 128 {
            let n = d[p + 1] - 128;
            if p + 2 + n < d.len() {
                assert(d.subrange(p + 2, p + 2 + n) =~= e.subrange(p + 2, p + 2 + n));
            }
        }
    }
    if session_holds(d, u, tag) {
        let p = choose|p: int| u + 4 <= p < u + 128 && #[trigger] framed_pdu(d, p, tag);
        assert(framed_pdu(e, p, tag));
    }
    if session_holds(e, u, tag) {
        let p = choose|p: int| u + 4 <= p < u + 128 && #[trigger] framed_pdu(e, p, tag);
        assert(framed_pdu(d, p, tag));
    }
}

// ---- Frames ---------------------------------------------------------------------------

/// A frame without tags is what its EtherType says: 0x88B8 GOOSE, 0x88BA
/// Sampled Values, 0x88B9 GSSE, 0x88F7 PTP, 0x88CC LLDP, 0x0806 ARP, 0x86DD
/// IPv6, and 0x0800 what its IPv4 packet is. Up to 1500 it is a length, and the
/// frame a BPDU if its payload opens with 0x42 twice. All else is `Other`.
pub proof fn law_ethertypes_name_protocols(d: Seq<u8>)
    requires
        d.len() >= 14,
        ({
            let etype = number16(d, 12);
            etype != 0x8100 && etype != 0x88A8 && etype != 0x892F
        }),
    ensures
        ({
            let etype = number16(d, 12);
            let p = classify::classified(d).proto;
            let bpdu = etype <= 1500 && d.len() >= 16 && d[14] == 0x42 && d[15] == 0x42;
            &&& p == Protocol::Goose <==> etype == 0x88B8
            &&& p == Protocol::SampledValues <==> etype == 0x88BA
            &&& p == Protocol::Gsse <==> etype == 0x88B9
            &&& p == Protocol::Ptp <==> etype == 0x88F7
            &&& p == Protocol::Lldp <==> etype == 0x88CC
            &&& p == Protocol::Arp <==> etype == 0x0806
            &&& p == Protocol::Ipv6 <==> etype == 0x86DD
            &&& p == Protocol::Rstp <==> bpdu
            &&& etype == 0x0800 ==> p == classify::ipv4_protocol(d, 14)
            &&& etype != 0x0800 && p != Protocol::Goose && p != Protocol::SampledValues && p
                != Protocol::Gsse && p != Protocol::Ptp && p != Protocol::Lldp && p
                != Protocol::Arp && p != Protocol::Ipv6 && p != Protocol::Rstp ==> p
                == Protocol::Other
            &&& classify::classified(d).vlans.len() == 0
        }),
{
    assert(classify::untagged_at(d, 12) == 12);
}

/// A frame without an HSR tag is redundant if it ends in 0x88FB, and its lane
/// is then the high nibble of the fourth byte from the end.
pub proof fn law_a_trailer_tells_the_lane(d: Seq<u8>)
    requires
        d.len() >= 14,
        number16(d, 12) != 0x8100,
        number16(d, 12) != 0x88A8,
        number16(d, 12) != 0x892F,
    ensures
        classify::classified(d).redundancy == (if d[d.len() - 2] == 0x88 && d[d.len() - 1] == 0xFB {
            Redundancy::Prp((d[d.len() - 4] / 16) as u8)
        } else {
            Redundancy::Absent
        }),
{
    assert(classify::untagged_at(d, 12) == 12);
}

/// Below fourteen bytes there is nothing to read.
pub proof fn law_runts_are_unread(d: Seq<u8>)
    requires
        d.len() < 14,
    ensures
        ({
            let f = classify::classified(d);
            &&& f.proto == Protocol::Other
            &&& f.vlans.len() == 0
            &&& f.redundancy == Redundancy::Absent
            &&& f.app.appid is None && f.app.svid is None && f.app.noasdu is None
            &&& f.app.confrev is None && f.app.sim is None
        }),
{
}

// ---- Tags -----------------------------------------------------------------------------

/// Whether `e` holds the bytes of `d` from the twelfth on, `k` places later,
/// and nothing behind them.
pub open spec fn moved(d: Seq<u8>, e: Seq<u8>, k: int) -> bool {
    &&& k >= 0
    &&& e.len() == d.len() + k
    &&& forall|i: int| 12 <= i < d.len() ==> e[i + k] == #[trigger] d[i]
}

/// Elements `k` places later.
pub open spec fn later(es: Seq<ber::Element>, k: int) -> Seq<ber::Element> {
    Seq::new(
        es.len(),
        |i: int| ber::Element { tag: es[i].tag, start: es[i].start + k, end: es[i].end + k },
    )
}

/// Whether elements lie between the twelfth byte of a frame and its end.
pub open spec fn inside(es: Seq<ber::Element>, d: Seq<u8>) -> bool {
    forall|i: int|
        0 <= i < es.len() ==> 12 <= (#[trigger] es[i]).start <= es[i].end <= d.len()
}

proof fn lemma_moved_range(d: Seq<u8>, e: Seq<u8>, k: int, a: int, b: int)
    requires
        moved(d, e, k),
        12 <= a <= b <= d.len(),
    ensures
        e.subrange(a + k, b + k) == d.subrange(a, b),
{
    assert forall|i: int| 0 <= i < b - a implies e.subrange(a + k, b + k)[i] == d.subrange(
        a,
        b,
    )[i] by {
        assert(e[(a + i) + k] == d[a + i]);
    }
    assert(e.subrange(a + k, b + k) =~= d.subrange(a, b));
}

proof fn lemma_moved_length(d: Seq<u8>, e: Seq<u8>, k: int, off: int)
    requires
        moved(d, e, k),
        12 <= off,
    ensures
        ber::length_at(e, off + k) == ber::length_at(d, off),
{
    if off < d.len() {
        assert(e[off + k] == d[off]);
        if d[off] >= 0x80 {
            let n = d[off] - 0x80;
            if off + 1 + n <= d.len() {
                lemma_moved_range(d, e, k, off + 1, off + 1 + n);
            }
        }
    }
}

proof fn lemma_moved_element(d: Seq<u8>, e: Seq<u8>, k: int, off: int, end: int)
    requires
        moved(d, e, k),
        12 <= off,
        end <= d.len(),
    ensures
        match ber::element_at(d, off, end) {
            None => ber::element_at(e, off + k, end + k) is None,
            Some(x) => off + 2 <= x.start <= x.end <= end && ber::element_at(e, off + k, end + k)
                == Some(ber::Element { tag: x.tag, start: x.start + k, end: x.end + k }),
        },
{
    if off + 1 < end {
        lemma_moved_length(d, e, k, off + 1);
        assert(e[off + k] == d[off]);
    }
}

proof fn lemma_moved_elements(d: Seq<u8>, e: Seq<u8>, k: int, off: int, end: int)
    requires
        moved(d, e, k),
        12 <= off,
        end <= d.len(),
    ensures
        inside(ber::elements(d, off, end), d),
        ber::elements(e, off + k, end + k) == later(ber::elements(d, off, end), k),
    decreases end - off,
{
    lemma_moved_element(d, e, k, off, end);
    match ber::element_at(d, off, end) {
        None => {
            assert(ber::elements(e, off + k, end + k) =~= later(ber::elements(d, off, end), k));
        },
        Some(x) => {
            let y = ber::Element { tag: x.tag, start: x.start + k, end: x.end + k };
            lemma_moved_elements(d, e, k, x.end, end);
            let rest = ber::elements(d, x.end, end);
            assert(ber::elements(d, off, end) == seq![x] + rest);
            assert(ber::elements(e, off + k, end + k) == seq![y] + ber::elements(
                e,
                x.end + k,
                end + k,
            ));
            assert(later(seq![x] + rest, k) =~= seq![y] + later(rest, k));
            assert forall|i: int| 0 <= i < (seq![x] + rest).len() implies 12 <= (
            #[trigger] (seq![x] + rest)[i]).start <= (seq![x] + rest)[i].end <= d.len() by {
                if i > 0 {
                    assert((seq![x] + rest)[i] == rest[i - 1]);
                }
            }
        },
    }
}

proof fn lemma_moved_last(es: Seq<ber::Element>, k: int, tag: u8)
    ensures
        match ber::last_of(es, tag) {
            None => ber::last_of(later(es, k), tag) is None,
            Some(x) => ber::last_of(later(es, k), tag) == Some(
                ber::Element { tag: x.tag, start: x.start + k, end: x.end + k },
            ),
        },
    decreases es.len(),
{
    if es.len() > 0 {
        assert(later(es, k).drop_last() =~= later(es.drop_last(), k));
        lemma_moved_last(es.drop_last(), k, tag);
    }
}

proof fn lemma_moved_fields(d: Seq<u8>, e: Seq<u8>, k: int, es: Seq<ber::Element>, tag: u8)
    requires
        moved(d, e, k),
        inside(es, d),
    ensures
        ber::text_field(e, later(es, k), tag) == ber::text_field(d, es, tag),
        ber::uint_field(e, later(es, k), tag) == ber::uint_field(d, es, tag),
        classify::bool_field(e, later(es, k), tag) == classify::bool_field(d, es, tag),
{
    lemma_moved_last(es, k, tag);
    ber::lemma_last_of_is_member(es, tag);
    if let Some(x) = ber::last_of(es, tag) {
        let i = es.index_of(x);
        assert(es[i] == x);
        lemma_moved_range(d, e, k, x.start, x.end);
        if classify::bool_field(d, es, tag) {
            let j = choose|j: int| x.start <= j < x.end && d[j] != 0;
            assert(e[j + k] == d[j]);
        }
        if classify::bool_field(e, later(es, k), tag) {
            let j = choose|j: int| x.start + k <= j < x.end + k && e[j] != 0;
            assert(e[(j - k) + k] == d[j - k]);
        }
    }
}

proof fn lemma_moved_pdu(d: Seq<u8>, e: Seq<u8>, k: int, p: int)
    requires
        moved(d, e, k),
        12 <= p < d.len(),
    ensures
        inside(classify::pdu_elements(d, p), d),
        classify::pdu_elements(e, p + k) == later(classify::pdu_elements(d, p), k),
{
    lemma_moved_length(d, e, k, p + 1);
    let (len, octets) = ber::length_at(d, p + 1);
    let body = p + 1 + octets;
    let end = classify::lesser(body + len, d.len() as int);
    lemma_moved_elements(d, e, k, body, end);
    assert(classify::lesser(body + k + len, e.len() as int) == end + k);
}

proof fn lemma_moved_goose(d: Seq<u8>, e: Seq<u8>, k: int, off: int)
    requires
        moved(d, e, k),
        12 <= off,
    ensures
        classify::goose_header(e, off + k) == classify::goose_header(d, off),
{
    if off + 8 <= d.len() {
        assert(e[off + k] == d[off] && e[off + 1 + k] == d[off + 1] && e[off + 4 + k] == d[off + 4]);
        if off + 8 < d.len() {
            assert(e[off + 8 + k] == d[off + 8]);
            lemma_moved_pdu(d, e, k, off + 8);
            let es = classify::pdu_elements(d, off + 8);
            lemma_moved_fields(d, e, k, es, 0x80);
            lemma_moved_fields(d, e, k, es, 0x83);
            lemma_moved_fields(d, e, k, es, 0x85);
            lemma_moved_fields(d, e, k, es, 0x88);
        }
    }
}

proof fn lemma_moved_asdus(d: Seq<u8>, e: Seq<u8>, k: int, es: Seq<ber::Element>)
    requires
        moved(d, e, k),
        inside(es, d),
    ensures
        inside(classify::asdu_elements(d, es), d),
        classify::asdu_elements(e, later(es, k)) == later(classify::asdu_elements(d, es), k),
    decreases es.len(),
{
    if es.len() == 0 {
        assert(classify::asdu_elements(e, later(es, k)) =~= later(Seq::empty(), k));
    } else {
        let front = es.drop_last();
        let x = es.last();
        assert(es[es.len() - 1] == x);
        assert(inside(front, d)) by {
            assert forall|i: int| 0 <= i < front.len() implies 12 <= (#[trigger] front[i]).start
                <= front[i].end <= d.len() by {
                assert(front[i] == es[i]);
            }
        }
        lemma_moved_asdus(d, e, k, front);
        assert(later(es, k).drop_last() =~= later(front, k));
        lemma_moved_element(d, e, k, x.start, x.end);
        if let Some(a) = ber::element_at(d, x.start, x.end) {
            lemma_moved_elements(d, e, k, a.start, a.end);
        }
        let a = classify::asdu_elements(d, front);
        let b = classify::first_asdu(d, x);
        let y = later(es, k).last();
        assert(classify::first_asdu(e, y) =~= later(b, k));
        assert(later(a + b, k) =~= later(a, k) + later(b, k));
        assert forall|i: int| 0 <= i < (a + b).len() implies 12 <= (#[trigger] (a + b)[i]).start
            <= (a + b)[i].end <= d.len() by {
            if i < a.len() {
                assert((a + b)[i] == a[i]);
            } else {
                assert((a + b)[i] == b[i - a.len()]);
            }
        }
    }
}

proof fn lemma_moved_sv(d: Seq<u8>, e: Seq<u8>, k: int, off: int)
    requires
        moved(d, e, k),
        12 <= off,
    ensures
        classify::sv_header(e, off + k) == classify::sv_header(d, off),
{
    if off + 8 <= d.len() {
        assert(e[off + k] == d[off] && e[off + 1 + k] == d[off + 1] && e[off + 4 + k] == d[off + 4]);
        if off + 8 < d.len() {
            assert(e[off + 8 + k] == d[off + 8]);
            lemma_moved_pdu(d, e, k, off + 8);
            let es = classify::pdu_elements(d, off + 8);
            lemma_moved_asdus(d, e, k, es);
            let asdu = classify::asdu_elements(d, es);
            lemma_moved_fields(d, e, k, asdu, 0x80);
            lemma_moved_fields(d, e, k, asdu, 0x83);
            lemma_moved_fields(d, e, k, es, 0x80);
        }
    }
}

proof fn lemma_moved_session(d: Seq<u8>, e: Seq<u8>, k: int, from: int, stop: int, tag: u8)
    requires
        moved(d, e, k),
        12 <= from,
        stop <= d.len(),
    ensures
        match classify::session_pdu(d, from, stop, tag) {
            None => classify::session_pdu(e, from + k, stop + k, tag) is None,
            Some(p) => from <= p < stop && classify::session_pdu(e, from + k, stop + k, tag)
                == Some(p + k),
        },
    decreases stop - from,
{
    if from < stop {
        assert(e[from + k] == d[from]);
        lemma_moved_length(d, e, k, from + 1);
        let (len, octets) = ber::length_at(d, from + 1);
        let b = from + 1 + octets;
        if b < d.len() {
            assert(e[b + k] == d[b]);
        }
        assert(classify::is_session_pdu(e, from + k, tag) == classify::is_session_pdu(d, from, tag));
        if !classify::is_session_pdu(d, from, tag) {
            lemma_moved_session(d, e, k, from + 1, stop, tag);
        }
    }
}

proof fn lemma_moved_payload(d: Seq<u8>, e: Seq<u8>, k: int, u: int, tag: u8)
    requires
        moved(d, e, k),
        12 <= u,
    ensures
        match classify::payload_pdu(d, u, tag) {
            None => classify::payload_pdu(e, u + k, tag) is None,
            Some(p) => u + 4 <= p < d.len() && classify::payload_pdu(e, u + k, tag) == Some(p + k),
        },
{
    let stop = classify::lesser(u + classify::SESSION_SCAN_WINDOW, d.len() as int);
    lemma_moved_session(d, e, k, u + 4, stop, tag);
    assert(classify::lesser(u + k + classify::SESSION_SCAN_WINDOW, e.len() as int) == stop + k);
}

proof fn lemma_moved_rgoose(d: Seq<u8>, e: Seq<u8>, k: int, u: int)
    requires
        moved(d, e, k),
        12 <= u,
    ensures
        classify::rgoose_header(e, u + k) == classify::rgoose_header(d, u),
{
    lemma_moved_payload(d, e, k, u, 0x61);
    if let Some(p) = classify::payload_pdu(d, u, 0x61) {
        lemma_moved_pdu(d, e, k, p);
        assert(e[p - 4 + k] == d[p - 4] && e[p - 3 + k] == d[p - 3]);
        let es = classify::pdu_elements(d, p);
        lemma_moved_fields(d, e, k, es, 0x80);
        lemma_moved_fields(d, e, k, es, 0x83);
        lemma_moved_fields(d, e, k, es, 0x85);
        lemma_moved_fields(d, e, k, es, 0x87);
        lemma_moved_fields(d, e, k, es, 0x88);
    }
}

proof fn lemma_moved_tail(d: Seq<u8>, e: Seq<u8>, k: int, u: int)
    requires
        moved(d, e, k),
        12 <= u,
    ensures
        classify::tail(e, u + k) == classify::tail(d, u),
{
    if u <= d.len() {
        lemma_moved_range(d, e, k, u, d.len() as int);
    }
}

proof fn lemma_moved_ipv4(d: Seq<u8>, e: Seq<u8>, k: int, ip: int)
    requires
        moved(d, e, k),
        12 <= ip,
        e.len() + 4 <= usize::MAX,
    ensures
        classify::ipv4_protocol(e, ip + k) == classify::ipv4_protocol(d, ip),
        ip < d.len() ==> classify::transport_at(e, ip + k) == classify::transport_at(d, ip) + k,
{
    if ip < d.len() {
        assert(e[ip + k] == d[ip]);
    }
    let t = classify::transport_at(d, ip);
    if ip + 20 <= d.len() && t + 4 <= d.len() {
        assert(e[ip + 6 + k] == d[ip + 6] && e[ip + 7 + k] == d[ip + 7] && e[ip + 9 + k] == d[ip
            + 9]);
        assert(e[ip + 16 + k] == d[ip + 16] && e[ip + 17 + k] == d[ip + 17] && e[ip + 18 + k] == d[ip
            + 18]);
        assert(e[t + k] == d[t] && e[t + 1 + k] == d[t + 1] && e[t + 2 + k] == d[t + 2] && e[t + 3
            + k] == d[t + 3]);
        if t + 12 < d.len() {
            assert(e[t + 12 + k] == d[t + 12]);
            lemma_moved_tail(d, e, k, t + (d[t + 12] / 16) * 4);
        }
        assert(classify::tcp_payload(e, t + k) == classify::tcp_payload(d, t));
        lemma_moved_tail(d, e, k, t + 8);
        lemma_moved_payload(d, e, k, t + 8, 0x61);
        lemma_moved_payload(d, e, k, t + 8, 0x60);
    }
}

/// What the payload behind an EtherType is does not depend on where it stands.
proof fn lemma_moved_frame(d: Seq<u8>, e: Seq<u8>, k: int, at: int)
    requires
        moved(d, e, k),
        12 <= at,
        at + 2 <= d.len(),
        e.len() + 4 <= usize::MAX,
    ensures
        ber::be16(e, at + k) == ber::be16(d, at),
        classify::payload_protocol(e, ber::be16(d, at), at + 2 + k) == classify::payload_protocol(
            d,
            ber::be16(d, at),
            at + 2,
        ),
        ({
            let p = classify::payload_protocol(d, ber::be16(d, at), at + 2);
            classify::payload_header(e, p, at + 2 + k) == classify::payload_header(d, p, at + 2)
        }),
{
    let off = at + 2;
    assert(e[at + k] == d[at] && e[at + 1 + k] == d[at + 1]);
    lemma_moved_ipv4(d, e, k, off);
    if off < d.len() {
        assert(e[off + k] == d[off]);
    }
    if off + 1 < d.len() {
        assert(e[off + 1 + k] == d[off + 1]);
    }
    lemma_moved_goose(d, e, k, off);
    lemma_moved_sv(d, e, k, off);
    if off + 20 <= d.len() {
        let t = classify::transport_at(d, off);
        if t + 4 <= d.len() {
            lemma_moved_rgoose(d, e, k, t + 8);
        }
    }
}

proof fn lemma_moved_stack(d: Seq<u8>, e: Seq<u8>, k: int, at: int)
    requires
        moved(d, e, k),
        12 <= at,
        at + 2 <= d.len(),
    ensures
        classify::untagged_at(e, at + k) == classify::untagged_at(d, at) + k,
        at <= classify::untagged_at(d, at),
        classify::untagged_at(d, at) + 2 <= d.len(),
        classify::vlan_stack(e, at + k) == classify::vlan_stack(d, at),
    decreases d.len() - at,
{
    assert(e[at + k] == d[at] && e[at + 1 + k] == d[at + 1]);
    if classify::opens_vlan_tag(d, at) {
        assert(e[at + 2 + k] == d[at + 2] && e[at + 3 + k] == d[at + 3]);
        lemma_moved_stack(d, e, k, at + 4);
    }
}

/// A frame with bytes put in behind its addresses.
pub open spec fn with_tag(d: Seq<u8>, tag: Seq<u8>) -> Seq<u8> {
    d.take(12) + tag + d.skip(12)
}

/// A VLAN tag: its type, three bits of priority, a bit that does not count, and
/// twelve bits of identifier.
pub open spec fn vlan_tag(service: bool, pcp: u8, dei: u8, id: u16) -> Seq<u8> {
    seq![
        if service {
            0x88u8
        } else {
            0x81u8
        },
        if service {
            0xA8u8
        } else {
            0x00u8
        },
        (pcp * 32 + dei * 16 + id / 256) as u8,
        (id % 256) as u8,
    ]
}

proof fn lemma_with_tag(d: Seq<u8>, tag: Seq<u8>)
    requires
        d.len() >= 14,
    ensures
        moved(d, with_tag(d, tag), tag.len() as int),
        forall|i: int| 0 <= i < tag.len() ==> with_tag(d, tag)[12 + i] == #[trigger] tag[i],
{
    let e = with_tag(d, tag);
    let k = tag.len() as int;
    assert forall|i: int| 12 <= i < d.len() implies e[i + k] == #[trigger] d[i] by {
        assert(d.skip(12)[i - 12] == d[i]);
    }
}

proof fn lemma_vlan_tag(service: bool, pcp: u8, dei: u8, id: u16)
    requires
        pcp < 8,
        dei < 2,
        id < 4096,
    ensures
        ({
            let tag = vlan_tag(service, pcp, dei, id);
            &&& tag.len() == 4
            &&& ber::be16(tag, 0) == 0x8100 || ber::be16(tag, 0) == 0x88A8
            &&& ber::be16(tag, 2) % 4096 == id
            &&& tag[2] / 32 == pcp
        }),
{
    let third = pcp * 32 + dei * 16 + id / 256;
    assert(third < 256);
    assert((third * 256 + id % 256) % 4096 == id && third / 32 == pcp) by (nonlinear_arith)
        requires
            third == pcp * 32 + dei * 16 + id / 256,
            pcp < 8,
            dei < 2,
            id < 4096,
    ;
}

/// The last bytes of a frame stay its last bytes.
proof fn lemma_moved_end(d: Seq<u8>, e: Seq<u8>, k: int)
    requires
        moved(d, e, k),
        d.len() >= 16,
    ensures
        ber::be16(e, e.len() - 2) == ber::be16(d, d.len() - 2),
        e[e.len() - 4] == d[d.len() - 4],
{
    let n = d.len() as int;
    assert(e[n - 1 + k] == d[n - 1] && e[n - 2 + k] == d[n - 2] && e[n - 4 + k] == d[n - 4]);
}

/// What stands behind all VLAN tags is read alike wherever it stands.
proof fn lemma_moved_untagged(d: Seq<u8>, e: Seq<u8>, k: int)
    requires
        moved(d, e, k),
        d.len() >= 14,
        e.len() + 4 <= usize::MAX,
        classify::untagged_at(e, 12) == classify::untagged_at(d, 12) + k,
    ensures
        classify::classified(e).proto == classify::classified(d).proto,
        classify::classified(e).app == classify::classified(d).app,
        d.len() >= 16 ==> classify::classified(e).redundancy == classify::classified(d).redundancy,
{
    let at = classify::untagged_at(d, 12);
    lemma_moved_stack(d, e, k, 12);
    assert(e[at + k] == d[at] && e[at + 1 + k] == d[at + 1]);
    if at + 2 < d.len() {
        assert(e[at + 2 + k] == d[at + 2]);
    }
    if d.len() >= 16 {
        lemma_moved_end(d, e, k);
    }
    let p = classify::payload_type_at(d);
    assert(classify::payload_type_at(e) == p + k);
    lemma_moved_frame(d, e, k, p);
}

/// Tagging a frame adds the tag in front of those it has, four at most being
/// kept, and changes nothing else about it: a tag is 0x8100 or 0x88A8, then
/// three bits of priority, a bit that does not count and twelve of identifier.
/// Frames below sixteen bytes are left out of what is said of redundancy: their
/// trailer would reach into the addresses.
pub proof fn law_a_vlan_tag_wraps_a_frame(
    d: Seq<u8>,
    service: bool,
    pcp: u8,
    dei: u8,
    id: u16,
)
    requires
        d.len() >= 14,
        pcp < 8,
        dei < 2,
        id < 4096,
        d.len() + 8 <= usize::MAX,
    ensures
        ({
            let f = classify::classified(d);
            let g = classify::classified(with_tag(d, vlan_tag(service, pcp, dei, id)));
            let all = seq![(id, pcp)] + f.vlans;
            &&& g.vlans == (if all.len() <= 4 {
                all
            } else {
                all.take(4)
            })
            &&& g.proto == f.proto
            &&& g.app == f.app
            &&& d.len() >= 16 ==> g.redundancy == f.redundancy
        }),
{
    let tag = vlan_tag(service, pcp, dei, id);
    let e = with_tag(d, tag);
    lemma_vlan_tag(service, pcp, dei, id);
    lemma_with_tag(d, tag);
    assert(e[12 + 0int] == tag[0] && e[12 + 1int] == tag[1] && e[12 + 2int] == tag[2] && e[12 + 3int]
        == tag[3]);
    assert(classify::opens_vlan_tag(e, 12));
    lemma_moved_stack(d, e, 4, 12);
    lemma_moved_untagged(d, e, 4);
    let stack = classify::vlan_stack(d, 12);
    let head = seq![(id, pcp)];
    assert(classify::vlan_stack(e, 12) =~= head + stack);
    if stack.len() >= 4 {
        assert((head + parse::kept_tags(stack)).take(4) =~= (head + stack).take(4));
    }
}

/// An HSR tag: its type, four bits of path and twelve of size, and a sequence
/// number.
pub open spec fn hsr_tag(path: u8, size: u16, seq_nr: u16) -> Seq<u8> {
    seq![
        0x89u8,
        0x2Fu8,
        (path * 16 + size / 256) as u8,
        (size % 256) as u8,
        (seq_nr / 256) as u8,
        (seq_nr % 256) as u8,
    ]
}

proof fn lemma_hsr_tag(path: u8, size: u16, seq_nr: u16)
    requires
        path < 16,
        size < 4096,
    ensures
        ({
            let tag = hsr_tag(path, size, seq_nr);
            tag.len() == 6 && ber::be16(tag, 0) == 0x892F && tag[2] / 16 == path
        }),
{
    let third = path * 16 + size / 256;
    assert(third < 256 && third / 16 == path);
}

/// An HSR tag on a frame without tags stands in front of its EtherType.
proof fn lemma_hsr_places(d: Seq<u8>, tag: Seq<u8>)
    requires
        d.len() >= 14,
        number16(d, 12) != 0x8100,
        number16(d, 12) != 0x88A8,
        number16(d, 12) != 0x892F,
        tag.len() == 6,
        ber::be16(tag, 0) == 0x892F,
    ensures
        classify::payload_type_at(d) == 12,
        ({
            let e = with_tag(d, tag);
            &&& moved(d, e, 6)
            &&& classify::untagged_at(e, 12) == 12
            &&& classify::vlan_stack(e, 12) == Seq::<(u16, u8)>::empty()
            &&& classify::opens_hsr_tag(e, 12)
            &&& classify::payload_type_at(e) == 18
            &&& e[14] == tag[2]
        }),
{
    let e = with_tag(d, tag);
    lemma_with_tag(d, tag);
    assert(e[12 + 0int] == tag[0] && e[12 + 1int] == tag[1] && e[12 + 2int] == tag[2]);
}

/// Putting an HSR tag on a frame that has no tag yet makes its redundancy HSR
/// with the path of the tag, whatever the frame ends in, and changes neither
/// its protocol nor its application header.
pub proof fn law_an_hsr_tag_wraps_a_frame(d: Seq<u8>, path: u8, size: u16, seq_nr: u16)
    requires
        d.len() >= 14,
        number16(d, 12) != 0x8100,
        number16(d, 12) != 0x88A8,
        number16(d, 12) != 0x892F,
        path < 16,
        size < 4096,
        d.len() + 10 <= usize::MAX,
    ensures
        ({
            let f = classify::classified(d);
            let g = classify::classified(with_tag(d, hsr_tag(path, size, seq_nr)));
            &&& g.redundancy == Redundancy::Hsr(path)
            &&& g.vlans.len() == 0
            &&& g.proto == f.proto
            &&& g.app == f.app
        }),
{
    let tag = hsr_tag(path, size, seq_nr);
    lemma_hsr_tag(path, size, seq_nr);
    lemma_hsr_places(d, tag);
    lemma_moved_frame(d, with_tag(d, tag), 6, 12);
}

/// A frame that ends inside its first tag is `Other`, without a VLAN; only a
/// trailer can still tell its redundancy.
pub proof fn law_frames_cut_inside_a_tag_are_other(d: Seq<u8>)
    requires
        14 <= d.len(),
        ({
            let etype = number16(d, 12);
            ||| (etype == 0x8100 || etype == 0x88A8) && d.len() < 18
            ||| etype == 0x892F && d.len() < 20
        }),
    ensures
        ({
            let f = classify::classified(d);
            &&& f.proto == Protocol::Other
            &&& f.vlans.len() == 0
            &&& f.app == parse::no_app()
            &&& f.redundancy == (if d[d.len() - 2] == 0x88 && d[d.len() - 1] == 0xFB {
                Redundancy::Prp((d[d.len() - 4] / 16) as u8)
            } else {
                Redundancy::Absent
            })
        }),
{
    assert(classify::untagged_at(d, 12) == 12);
}

/// Tags behind an HSR tag are not looked into: such a frame is `Other`, with the
/// path of its HSR tag.
pub proof fn law_tags_behind_an_hsr_tag_are_other(d: Seq<u8>, path: u8, size: u16, seq_nr: u16)
    requires
        d.len() >= 14,
        number16(d, 12) == 0x8100 || number16(d, 12) == 0x88A8 || number16(d, 12) == 0x892F,
        path < 16,
        size < 4096,
    ensures
        ({
            let g = classify::classified(with_tag(d, hsr_tag(path, size, seq_nr)));
            &&& g.proto == Protocol::Other
            &&& g.redundancy == Redundancy::Hsr(path)
            &&& g.vlans.len() == 0
            &&& g.app == parse::no_app()
        }),
{
    let tag = hsr_tag(path, size, seq_nr);
    let e = with_tag(d, tag);
    lemma_hsr_tag(path, size, seq_nr);
    lemma_with_tag(d, tag);
    assert(e[12 + 0int] == tag[0] && e[12 + 1int] == tag[1] && e[12 + 2int] == tag[2]);
    assert(e[12 + 6int] == d[12] && e[13 + 6int] == d[13]);
    assert(classify::untagged_at(e, 12) == 12);
    assert(classify::payload_type_at(e) == 18);
}

} // verus!
