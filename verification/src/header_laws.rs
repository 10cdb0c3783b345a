//! What GOOSE, Sampled Values and R-GOOSE frames say of themselves, seen from
//! the fields that were written into them.
use crate::ber;
use crate::classify;
use crate::classify_laws;
use crate::parse::Protocol;
use vstd::prelude::*;

verus! {

// ---- Writing ----------------------------------------------------------------------------

/// A field of a PDU: its tag and its value.
pub ghost struct Field {
    pub tag: u8,
    pub value: Seq<u8>,
}

/// A length as it stands in front of a value: one byte up to 127, and above
/// that 0x82 and two bytes.
pub open spec fn length_bytes(n: int) -> Seq<u8> {
    if n < 128 {
        seq![n as u8]
    } else {
        seq![0x82u8, (n / 256) as u8, (n % 256) as u8]
    }
}

/// A field as it stands in a frame.
pub open spec fn field_bytes(f: Field) -> Seq<u8> {
    seq![f.tag] + length_bytes(f.value.len() as int) + f.value
}

/// Fields as they stand in a frame.
pub open spec fn fields_bytes(fs: Seq<Field>) -> Seq<u8>
    decreases fs.len(),
{
    if fs.len() == 0 {
        Seq::empty()
    } else {
        field_bytes(fs[0]) + fields_bytes(fs.skip(1))
    }
}

/// Whether every value is short enough for its length to be written.
pub open spec fn writable(fs: Seq<Field>) -> bool {
    forall|i: int| 0 <= i < fs.len() ==> (#[trigger] fs[i]).value.len() < 0x10000
}

/// Whether field `j` is the last one of its tag.
pub open spec fn is_last(fs: Seq<Field>, tag: u8, j: int) -> bool {
    &&& 0 <= j < fs.len()
    &&& fs[j].tag == tag
    &&& forall|i: int| j < i < fs.len() ==> (#[trigger] fs[i]).tag != tag
}

/// Whether no field has a tag.
pub open spec fn lacks(fs: Seq<Field>, tag: u8) -> bool {
    forall|i: int| 0 <= i < fs.len() ==> (#[trigger] fs[i]).tag != tag
}

/// A text as it is shown: printable ASCII as it is, a dot for all else.
pub open spec fn shows(text: Seq<char>, value: Seq<u8>) -> bool {
    &&& text.len() == value.len()
    &&& forall|i: int|
        0 <= i < value.len() ==> if 32 <= #[trigger] value[i] <= 126 {
            text[i] == value[i] as char
        } else {
            text[i] == '.'
        }
}

/// The number that big-endian bytes stand for.
pub open spec fn number_in(value: Seq<u8>) -> nat
    decreases value.len(),
{
    if value.len() == 0 {
        0
    } else {
        value.last() as nat + 256 * number_in(value.drop_last())
    }
}

/// Whether a text column tells the last field of a tag, if there is one.
pub open spec fn tells_text(r: Option<Seq<char>>, fs: Seq<Field>, tag: u8) -> bool {
    &&& lacks(fs, tag) ==> r is None
    &&& forall|j: int| #[trigger] is_last(fs, tag, j) ==> r is Some && shows(r->0, fs[j].value)
}

/// Whether a number column tells the last field of a tag, if there is one; a
/// number beyond sixty-four bits is told as the largest.
pub open spec fn tells_number(r: Option<u64>, fs: Seq<Field>, tag: u8) -> bool {
    &&& lacks(fs, tag) ==> r is None
    &&& forall|j: int| #[trigger]
        is_last(fs, tag, j) ==> r == Some(
            if number_in(fs[j].value) <= 0xFFFF_FFFF_FFFF_FFFF {
                number_in(fs[j].value) as u64
            } else {
                0xFFFF_FFFF_FFFF_FFFFu64
            },
        )
}

// ---- Reading back -------------------------------------------------------------------------

proof fn lemma_number(value: Seq<u8>)
    ensures
        ber::be_value(value) == number_in(value),
    decreases value.len(),
{
    if value.len() > 0 {
        lemma_number(value.drop_last());
    }
}

/// A length reads back, and is followed by what was written behind it.
pub proof fn law_lengths_read_back(d: Seq<u8>, off: int, n: int)
    requires
        0 <= n < 0x10000,
        0 <= off,
        off + length_bytes(n).len() <= d.len(),
        d.subrange(off, off + length_bytes(n).len()) == length_bytes(n),
    ensures
        ber::length_at(d, off) == (n as nat, length_bytes(n).len()),
{
    let w = d.subrange(off, off + length_bytes(n).len());
    assert(w[0] == d[off]);
    if n >= 128 {
        assert(w[1] == d[off + 1] && w[2] == d[off + 2]);
        let v = d.subrange(off + 1, off + 3);
        assert(v =~= seq![(n / 256) as u8, (n % 256) as u8]);
        reveal_with_fuel(ber::be_value, 3);
        assert(v.drop_last() =~= seq![(n / 256) as u8]);
        assert(v.drop_last().drop_last() =~= Seq::empty());
        assert(0x10000 <= usize::MAX);
    }
}

/// Whether elements are those of the fields, with their values.
pub open spec fn stand_for(d: Seq<u8>, es: Seq<ber::Element>, fs: Seq<Field>) -> bool {
    &&& es.len() == fs.len()
    &&& forall|i: int|
        0 <= i < fs.len() ==> (#[trigger] es[i]).tag == fs[i].tag && ber::value_of(d, es[i])
            == fs[i].value && 0 <= es[i].start <= es[i].end <= d.len()
}

proof fn lemma_field(d: Seq<u8>, off: int, end: int, f: Field)
    requires
        0 <= off,
        end <= d.len(),
        off + field_bytes(f).len() <= end,
        f.value.len() < 0x10000,
        d.subrange(off, off + field_bytes(f).len()) == field_bytes(f),
    ensures
        ({
            let start = off + 1 + length_bytes(f.value.len() as int).len();
            let stop = off + field_bytes(f).len();
            &&& ber::element_at(d, off, end) == Some(
                ber::Element { tag: f.tag, start, end: stop as int },
            )
            &&& d.subrange(start, stop) == f.value
            &&& off + 2 <= start <= stop
        }),
{
    let n = f.value.len() as int;
    let w = length_bytes(n);
    let b = field_bytes(f);
    let s = d.subrange(off, off + b.len());
    assert(b[0] == f.tag);
    assert(s[0] == d[off]);
    assert(d.subrange(off + 1, off + 1 + w.len()) =~= w) by {
        assert forall|i: int| 0 <= i < w.len() implies d[off + 1 + i] == w[i] by {
            assert(b[1 + i] == w[i]);
            assert(s[1 + i] == d[off + (1 + i)]);
        }
    }
    law_lengths_read_back(d, off + 1, n);
    let start = off + 1 + w.len();
    assert(d.subrange(start, start + n) =~= f.value) by {
        assert forall|i: int| 0 <= i < n implies d[start + i] == f.value[i] by {
            assert(b[1 + w.len() + i] == f.value[i]);
            assert(s[1 + w.len() + i] == d[off + (1 + w.len() + i)]);
        }
    }
}

/// Written fields are read as elements, one for one.
proof fn lemma_fields(d: Seq<u8>, off: int, fs: Seq<Field>)
    requires
        0 <= off,
        off + fields_bytes(fs).len() <= d.len(),
        d.subrange(off, off + fields_bytes(fs).len()) == fields_bytes(fs),
        writable(fs),
    ensures
        stand_for(d, ber::elements(d, off, off + fields_bytes(fs).len()), fs),
    decreases fs.len(),
{
    let all = fields_bytes(fs);
    let end = off + all.len();
    if fs.len() > 0 {
        let b = field_bytes(fs[0]);
        let rest = fs.skip(1);
        let more = fields_bytes(rest);
        let s = d.subrange(off, end);
        assert(s == b + more);
        assert(d.subrange(off, off + b.len()) =~= b) by {
            assert forall|i: int| 0 <= i < b.len() implies d[off + i] == b[i] by {
                assert(s[i] == (b + more)[i]);
            }
        }
        let next = off + b.len();
        assert(d.subrange(next, next + more.len()) =~= more) by {
            assert forall|i: int| 0 <= i < more.len() implies d[next + i] == more[i] by {
                assert(s[b.len() + i] == (b + more)[b.len() + i]);
            }
        }
        assert(writable(rest)) by {
            assert forall|i: int| 0 <= i < rest.len() implies (#[trigger] rest[i]).value.len()
                < 0x10000 by {
                assert(rest[i] == fs[i + 1]);
            }
        }
        assert(fs[0].value.len() < 0x10000);
        lemma_field(d, off, end, fs[0]);
        lemma_fields(d, next, rest);
        let e = ber::element_at(d, off, end)->0;
        let later = ber::elements(d, next, end);
        assert(ber::elements(d, off, end) == seq![e] + later);
        let es = ber::elements(d, off, end);
        assert forall|i: int| 0 <= i < fs.len() implies (#[trigger] es[i]).tag == fs[i].tag
            && ber::value_of(d, es[i]) == fs[i].value && 0 <= es[i].start <= es[i].end
            <= d.len() by {
            if i > 0 {
                assert(es[i] == later[i - 1]);
                assert(fs[i] == rest[i - 1]);
            }
        }
    }
}

proof fn lemma_last(d: Seq<u8>, es: Seq<ber::Element>, fs: Seq<Field>, tag: u8)
    requires
        stand_for(d, es, fs),
    ensures
        match ber::last_of(es, tag) {
            None => lacks(fs, tag),
            Some(e) => exists|j: int|
                #[trigger] is_last(fs, tag, j) && ber::value_of(d, e) == fs[j].value,
        },
    decreases fs.len(),
{
    if fs.len() > 0 {
        let n = fs.len() - 1;
        assert(es[n].tag == fs[n].tag);
        if es.last().tag == tag {
            assert(is_last(fs, tag, n));
        } else {
            let front = fs.drop_last();
            let some = es.drop_last();
            assert(stand_for(d, some, front)) by {
                assert forall|i: int| 0 <= i < front.len() implies (#[trigger] some[i]).tag
                    == front[i].tag && ber::value_of(d, some[i]) == front[i].value && 0
                    <= some[i].start <= some[i].end <= d.len() by {
                    assert(es[i] == some[i]);
                }
            }
            lemma_last(d, some, front, tag);
            match ber::last_of(some, tag) {
                None => {
                    assert forall|i: int| 0 <= i < fs.len() implies (#[trigger] fs[i]).tag
                        != tag by {
                        if i < n {
                            assert(fs[i] == front[i]);
                        }
                    }
                },
                Some(e) => {
                    let j = choose|j: int|
                        #[trigger] is_last(front, tag, j) && ber::value_of(d, e) == front[j].value;
                    assert(is_last(fs, tag, j)) by {
                        assert(fs[j] == front[j]);
                        assert forall|i: int| j < i < fs.len() implies (#[trigger] fs[i]).tag
                            != tag by {
                            if i < n {
                                assert(fs[i] == front[i]);
                            }
                        }
                    }
                },
            }
        }
    }
}

proof fn lemma_tells(d: Seq<u8>, es: Seq<ber::Element>, fs: Seq<Field>, tag: u8)
    requires
        stand_for(d, es, fs),
    ensures
        tells_text(ber::text_field(d, es, tag), fs, tag),
        tells_number(ber::uint_field(d, es, tag), fs, tag),
        ber::last_of(es, tag) is None <==> lacks(fs, tag),
{
    lemma_last(d, es, fs, tag);
    if let Some(e) = ber::last_of(es, tag) {
        let k = choose|j: int|
            #[trigger] is_last(fs, tag, j) && ber::value_of(d, e) == fs[j].value;
        let v = fs[k].value;
        lemma_number(v);
        assert(shows(ber::shown(v), v));
        assert(fs[k].tag == tag);
        assert forall|j: int| #[trigger] is_last(fs, tag, j) implies j == k by {
            if j < k {
                assert(fs[k].tag != tag);
            } else if k < j {
                assert(fs[j].tag != tag);
            }
        }
    } else {
        assert forall|j: int| !#[trigger] is_last(fs, tag, j) by {}
    }
}

/// A PDU as it stands in a frame.
pub open spec fn pdu_bytes(tag: u8, fs: Seq<Field>) -> Seq<u8> {
    seq![tag] + length_bytes(fields_bytes(fs).len() as int) + fields_bytes(fs)
}

proof fn lemma_pdu(d: Seq<u8>, p: int, tag: u8, fs: Seq<Field>)
    requires
        0 <= p,
        p + pdu_bytes(tag, fs).len() <= d.len(),
        d.subrange(p, p + pdu_bytes(tag, fs).len()) == pdu_bytes(tag, fs),
        fields_bytes(fs).len() < 0x10000,
        writable(fs),
    ensures
        d[p] == tag,
        stand_for(d, classify::pdu_elements(d, p), fs),
{
    let body = fields_bytes(fs);
    let whole = Field { tag, value: body };
    assert(field_bytes(whole) == pdu_bytes(tag, fs));
    lemma_field(d, p, d.len() as int, whole);
    let start = p + 1 + length_bytes(body.len() as int).len();
    lemma_fields(d, start, fs);
    assert(d.subrange(p, p + pdu_bytes(tag, fs).len())[0] == tag);
    let e = ber::element_at(d, p, d.len() as int)->0;
    assert(e.start == start && e.end == start + body.len());
}

// ---- GOOSE and Sampled Values ---------------------------------------------------------------

/// A GOOSE frame without tags: addresses, EtherType, AppID, length, two reserved
/// fields, the PDU, and whatever follows.
pub open spec fn goose_frame(
    addresses: Seq<u8>,
    appid: u16,
    rest: Seq<u8>,
    fs: Seq<Field>,
    tail: Seq<u8>,
) -> Seq<u8> {
    addresses + seq![0x88u8, 0xB8u8, (appid / 256) as u8, (appid % 256) as u8] + rest + pdu_bytes(
        0x61,
        fs,
    ) + tail
}

/// A GOOSE frame tells its AppID, whether its simulation bit is set, the name in
/// its last goID (0x83) or without one its gocbRef (0x80), its stNum (0x85) and
/// its confRev (0x88).
pub proof fn law_goose_reads_back(
    addresses: Seq<u8>,
    appid: u16,
    rest: Seq<u8>,
    fs: Seq<Field>,
    tail: Seq<u8>,
)
    requires
        addresses.len() == 12,
        rest.len() == 6,
        fields_bytes(fs).len() < 0x10000,
        writable(fs),
    ensures
        ({
            let f = classify::classified(goose_frame(addresses, appid, rest, fs, tail));
            &&& f.proto == Protocol::Goose
            &&& f.app.appid == Some(appid)
            &&& f.app.sim == Some(rest[2] >= 128)
            &&& lacks(fs, 0x83) ==> tells_text(f.app.svid, fs, 0x80)
            &&& !lacks(fs, 0x83) ==> tells_text(f.app.svid, fs, 0x83)
            &&& tells_number(f.app.noasdu, fs, 0x85)
            &&& tells_number(f.app.confrev, fs, 0x88)
        }),
{
    let d = goose_frame(addresses, appid, rest, fs, tail);
    let b = pdu_bytes(0x61, fs);
    assert(d[12] == 0x88 && d[13] == 0xB8 && d[14] == (appid / 256) as u8 && d[15] == (appid
        % 256) as u8 && d[18] == rest[2]);
    assert(d.subrange(22, 22int + b.len()) =~= b);
    lemma_pdu(d, 22, 0x61, fs);
    classify_laws::law_ethertypes_name_protocols(d);
    assert(classify::payload_type_at(d) == 12);
    let es = classify::pdu_elements(d, 22);
    lemma_tells(d, es, fs, 0x80);
    lemma_tells(d, es, fs, 0x83);
    lemma_tells(d, es, fs, 0x85);
    lemma_tells(d, es, fs, 0x88);
}

/// A GOOSE or Sampled Values frame whose PDU is missing tells its AppID alone,
/// and one cut inside its header nothing.
pub proof fn law_a_header_without_pdu(d: Seq<u8>)
    requires
        d.len() >= 14,
        d[12] == 0x88,
        d[13] == 0xB8 || d[13] == 0xBA,
        d.len() <= 22 || d[22] != (if d[13] == 0xB8 {
            0x61u8
        } else {
            0x60u8
        }),
    ensures
        ({
            let app = classify::classified(d).app;
            &&& app.appid == (if d.len() >= 22 {
                Some((d[14] * 256 + d[15]) as u16)
            } else {
                None
            })
            &&& app.svid is None && app.noasdu is None && app.confrev is None && app.sim is None
        }),
{
    assert(classify::payload_type_at(d) == 12);
}

/// A Sampled Values frame without tags, whose first ASDU has the given fields.
pub open spec fn sv_frame(
    addresses: Seq<u8>,
    appid: u16,
    rest: Seq<u8>,
    before: Seq<Field>,
    asdu: Seq<Field>,
    others: Seq<u8>,
    tail: Seq<u8>,
) -> Seq<u8> {
    addresses + seq![0x88u8, 0xBAu8, (appid / 256) as u8, (appid % 256) as u8] + rest + pdu_bytes(
        0x60,
        sv_fields(before, asdu, others),
    ) + tail
}

/// The fields of a savPdu: some, and then a sequence of ASDUs.
pub open spec fn sv_fields(before: Seq<Field>, asdu: Seq<Field>, others: Seq<u8>) -> Seq<Field> {
    before.push(
        Field { tag: 0xA2, value: field_bytes(Field { tag: 0x30, value: fields_bytes(asdu) }) + others },
    )
}

/// A Sampled Values frame tells its AppID, whether its simulation bit is set,
/// its number of ASDUs (0x80), and of its first ASDU the svID (0x80) and the
/// confRev (0x83).
pub proof fn law_sampled_values_read_back(
    addresses: Seq<u8>,
    appid: u16,
    rest: Seq<u8>,
    before: Seq<Field>,
    asdu: Seq<Field>,
    others: Seq<u8>,
    tail: Seq<u8>,
)
    requires
        addresses.len() == 12,
        rest.len() == 6,
        fields_bytes(sv_fields(before, asdu, others)).len() < 0x10000,
        fields_bytes(asdu).len() < 0x10000,
        writable(sv_fields(before, asdu, others)),
        writable(asdu),
        lacks(before, 0xA2),
    ensures
        ({
            let f = classify::classified(
                sv_frame(addresses, appid, rest, before, asdu, others, tail),
            );
            &&& f.proto == Protocol::SampledValues
            &&& f.app.appid == Some(appid)
            &&& f.app.sim == Some(rest[2] >= 128)
            &&& tells_number(f.app.noasdu, sv_fields(before, asdu, others), 0x80)
            &&& tells_text(f.app.svid, asdu, 0x80)
            &&& tells_number(f.app.confrev, asdu, 0x83)
        }),
{
    let d = sv_frame(addresses, appid, rest, before, asdu, others, tail);
    let fs = sv_fields(before, asdu, others);
    let b = pdu_bytes(0x60, fs);
    assert(d[12] == 0x88 && d[13] == 0xBA && d[14] == (appid / 256) as u8 && d[15] == (appid
        % 256) as u8 && d[18] == rest[2]);
    assert(d.subrange(22, 22int + b.len()) =~= b);
    lemma_pdu(d, 22, 0x60, fs);
    classify_laws::law_ethertypes_name_protocols(d);
    assert(classify::payload_type_at(d) == 12);
    let es = classify::pdu_elements(d, 22);
    lemma_tells(d, es, fs, 0x80);
    lemma_first_asdu(d, es, before, asdu, others);
    let found = classify::asdu_elements(d, es);
    lemma_tells(d, found, asdu, 0x80);
    lemma_tells(d, found, asdu, 0x83);
}

/// Without any sequence of ASDUs there is no ASDU.
proof fn lemma_no_asdu(d: Seq<u8>, es: Seq<ber::Element>, fs: Seq<Field>)
    requires
        stand_for(d, es, fs),
        lacks(fs, 0xA2),
    ensures
        classify::asdu_elements(d, es) == Seq::<ber::Element>::empty(),
    decreases es.len(),
{
    if es.len() > 0 {
        let n = fs.len() - 1;
        let front = fs.drop_last();
        let some = es.drop_last();
        assert(es[n].tag == fs[n].tag && fs[n].tag != 0xA2);
        assert(stand_for(d, some, front) && lacks(front, 0xA2)) by {
            assert forall|i: int| 0 <= i < front.len() implies (#[trigger] some[i]).tag
                == front[i].tag && ber::value_of(d, some[i]) == front[i].value && 0
                <= some[i].start <= some[i].end <= d.len() by {
                assert(es[i] == some[i]);
            }
            assert forall|i: int| 0 <= i < front.len() implies (#[trigger] front[i]).tag
                != 0xA2 by {
                assert(fs[i] == front[i]);
            }
        }
        lemma_no_asdu(d, some, front);
        assert(classify::asdu_elements(d, es) =~= Seq::empty());
    }
}

proof fn lemma_first_asdu(
    d: Seq<u8>,
    es: Seq<ber::Element>,
    before: Seq<Field>,
    asdu: Seq<Field>,
    others: Seq<u8>,
)
    requires
        stand_for(d, es, sv_fields(before, asdu, others)),
        lacks(before, 0xA2),
        writable(asdu),
        fields_bytes(asdu).len() < 0x10000,
    ensures
        stand_for(d, classify::asdu_elements(d, es), asdu),
{
    let fs = sv_fields(before, asdu, others);
    let n = before.len() as int;
    let some = es.drop_last();
    let e = es.last();
    assert(es[n].tag == fs[n].tag && ber::value_of(d, es[n]) == fs[n].value && 0 <= es[n].start
        <= es[n].end <= d.len());
    assert(stand_for(d, some, before)) by {
        assert forall|i: int| 0 <= i < before.len() implies (#[trigger] some[i]).tag
            == before[i].tag && ber::value_of(d, some[i]) == before[i].value && 0 <= some[i].start
            <= some[i].end <= d.len() by {
            assert(es[i] == some[i]);
            assert(fs[i] == before[i]);
        }
    }
    lemma_no_asdu(d, some, before);
    let inner = Field { tag: 0x30, value: fields_bytes(asdu) };
    let b = field_bytes(inner);
    let v = d.subrange(e.start, e.end);
    assert(v == b + others);
    assert(d.subrange(e.start, e.start + b.len()) =~= b) by {
        assert forall|i: int| 0 <= i < b.len() implies d[e.start + i] == b[i] by {
            assert(v[i] == (b + others)[i]);
        }
    }
    lemma_field(d, e.start, e.end, inner);
    let start = e.start + 1 + length_bytes(fields_bytes(asdu).len() as int).len();
    lemma_fields(d, start, asdu);
    assert(classify::asdu_elements(d, es) =~= classify::first_asdu(d, e));
}

// ---- R-GOOSE --------------------------------------------------------------------------------

/// An R-GOOSE frame tells, of the first GOOSE PDU in its session payload, the
/// AppID four bytes before it, the name in its goID or without one its gocbRef,
/// its stNum, its confRev, and as simulation whether the last field of tag 0x87
/// holds anything but zeros.
pub proof fn law_routable_goose_reads_back(
    d: Seq<u8>,
    t: int,
    p: int,
    fs: Seq<Field>,
)
    requires
        d.len() + 4 <= usize::MAX,
        d.len() >= 34,
        d[12] == 0x08,
        d[13] == 0x00,
        classify_laws::carries(d, 14, 17, t),
        classify::classified(d).proto == Protocol::RGoose,
        t + 12 <= p < t + 136,
        p + pdu_bytes(0x61, fs).len() <= d.len(),
        d.subrange(p, p + pdu_bytes(0x61, fs).len()) == pdu_bytes(0x61, fs),
        classify_laws::framed_pdu(d, p, 0x61),
        forall|i: int| t + 12 <= i < p ==> !#[trigger] classify_laws::framed_pdu(d, i, 0x61),
        fields_bytes(fs).len() < 0x10000,
        writable(fs),
    ensures
        ({
            let app = classify::classified(d).app;
            &&& app.appid == Some((d[p - 4] * 256 + d[p - 3]) as u16)
            &&& lacks(fs, 0x83) ==> tells_text(app.svid, fs, 0x80)
            &&& !lacks(fs, 0x83) ==> tells_text(app.svid, fs, 0x83)
            &&& tells_number(app.noasdu, fs, 0x85)
            &&& tells_number(app.confrev, fs, 0x88)
            &&& lacks(fs, 0x87) ==> app.sim == Some(false)
            &&& forall|j: int| #[trigger]
                is_last(fs, 0x87, j) ==> app.sim == Some(
                    exists|i: int| 0 <= i < fs[j].value.len() && fs[j].value[i] != 0,
                )
        }),
{
    let u = t + 8;
    classify_laws::lemma_payload_pdu(d, u, 0x61);
    assert(classify::payload_type_at(d) == 12);
    assert(classify::payload_pdu(d, u, 0x61) == Some(p)) by {
        assert(classify_laws::session_holds(d, u, 0x61));
    }
    lemma_pdu(d, p, 0x61, fs);
    let es = classify::pdu_elements(d, p);
    lemma_tells(d, es, fs, 0x80);
    lemma_tells(d, es, fs, 0x83);
    lemma_tells(d, es, fs, 0x85);
    lemma_tells(d, es, fs, 0x88);
    lemma_tells(d, es, fs, 0x87);
    lemma_flag(d, es, fs, 0x87);
}

proof fn lemma_flag(d: Seq<u8>, es: Seq<ber::Element>, fs: Seq<Field>, tag: u8)
    requires
        stand_for(d, es, fs),
    ensures
        lacks(fs, tag) ==> !classify::bool_field(d, es, tag),
        forall|j: int| #[trigger]
            is_last(fs, tag, j) ==> classify::bool_field(d, es, tag) == (exists|i: int|
                0 <= i < fs[j].value.len() && fs[j].value[i] != 0),
{
    lemma_last(d, es, fs, tag);
    ber::lemma_last_of_is_member(es, tag);
    if let Some(e) = ber::last_of(es, tag) {
        let x = es.index_of(e);
        assert(es[x] == e);
        assert(0 <= e.start <= e.end <= d.len());
        let k = choose|j: int|
            #[trigger] is_last(fs, tag, j) && ber::value_of(d, e) == fs[j].value;
        let v = fs[k].value;
        assert(fs[k].tag == tag);
        assert forall|j: int| #[trigger] is_last(fs, tag, j) implies j == k by {
            if j < k {
                assert(fs[k].tag != tag);
            } else if k < j {
                assert(fs[j].tag != tag);
            }
        }
        assert(v == d.subrange(e.start, e.end));
        if classify::bool_field(d, es, tag) {
            let i = choose|i: int| e.start <= i < e.end && d[i] != 0;
            assert(v[i - e.start] != 0);
        }
        if exists|i: int| 0 <= i < v.len() && v[i] != 0 {
            let i = choose|i: int| 0 <= i < v.len() && v[i] != 0;
            assert(d[e.start + i] != 0);
        }
    }
}

// ---- Cut frames -----------------------------------------------------------------------------

/// Of fields that are cut, those that are whole are read.
proof fn lemma_cut_fields(d: Seq<u8>, off: int, fs: Seq<Field>)
    requires
        0 <= off <= d.len(),
        d.len() - off <= fields_bytes(fs).len(),
        d.skip(off) == fields_bytes(fs).take(d.len() - off),
        writable(fs),
    ensures
        exists|k: int|
            0 <= k <= fs.len() && #[trigger] stand_for(
                d,
                ber::elements(d, off, d.len() as int),
                fs.take(k),
            ) && is_cut_after(fs, d.len() - off, k),
    decreases fs.len(),
{
    let end = d.len() as int;
    let m = end - off;
    let all = fields_bytes(fs);
    if fs.len() == 0 {
        assert(fs.take(0) =~= fs);
        assert(stand_for(d, ber::elements(d, off, end), fs.take(0)));
    } else {
        let b = field_bytes(fs[0]);
        let rest = fs.skip(1);
        let more = fields_bytes(rest);
        assert(fs[0].value.len() < 0x10000);
        assert(writable(rest)) by {
            assert forall|i: int| 0 <= i < rest.len() implies (#[trigger] rest[i]).value.len()
                < 0x10000 by {
                assert(rest[i] == fs[i + 1]);
            }
        }
        let s = d.skip(off);
        if m < b.len() {
            assert forall|i: int| 0 <= i < m implies d[off + i] == #[trigger] b[i] by {
                assert(s[i] == all.take(m)[i]);
                assert(all[i] == (b + more)[i]);
            }
            lemma_cut_field(d, off, fs[0]);
            assert(fs.take(0) =~= Seq::empty());
            assert(ber::elements(d, off, end) =~= Seq::empty());
            assert(stand_for(d, ber::elements(d, off, end), fs.take(0)));
            lemma_fields_len(fs, 1);
            assert(is_cut_after(fs, m, 0));
        } else {
            assert(d.subrange(off, off + b.len()) =~= b) by {
                assert forall|i: int| 0 <= i < b.len() implies d[off + i] == b[i] by {
                    assert(s[i] == all.take(m)[i]);
                    assert(all[i] == (b + more)[i]);
                }
            }
            lemma_field(d, off, end, fs[0]);
            let next = off + b.len();
            assert(d.skip(next) =~= more.take(end - next)) by {
                assert forall|i: int| 0 <= i < end - next implies d[next + i] == more[i] by {
                    assert(s[b.len() + i] == all.take(m)[b.len() + i]);
                    assert(all[b.len() + i] == (b + more)[b.len() + i]);
                }
            }
            lemma_cut_fields(d, next, rest);
            let k = choose|k: int|
                0 <= k <= rest.len() && #[trigger] stand_for(
                    d,
                    ber::elements(d, next, end),
                    rest.take(k),
                ) && is_cut_after(rest, end - next, k);
            let e = ber::element_at(d, off, end)->0;
            let later = ber::elements(d, next, end);
            let es = ber::elements(d, off, end);
            assert(es == seq![e] + later);
            let some = fs.take(k + 1);
            assert forall|i: int| 0 <= i < some.len() implies (#[trigger] es[i]).tag == some[i].tag
                && ber::value_of(d, es[i]) == some[i].value && 0 <= es[i].start <= es[i].end
                <= d.len() by {
                if i > 0 {
                    assert(es[i] == later[i - 1]);
                    assert(some[i] == rest.take(k)[i - 1]);
                }
            }
            assert(stand_for(d, es, fs.take(k + 1)));
            lemma_fields_len(fs, k + 1);
            if k < rest.len() {
                lemma_fields_len(fs, k + 2);
            }
        }
    }
}

/// Whether `n` bytes of fields hold the first `k` of them wholly, and not the next.
pub open spec fn is_cut_after(fs: Seq<Field>, n: int, k: int) -> bool {
    &&& fields_bytes(fs.take(k)).len() <= n
    &&& k < fs.len() ==> n < fields_bytes(fs.take(k + 1)).len()
}

proof fn lemma_fields_len(fs: Seq<Field>, k: int)
    requires
        0 < k <= fs.len(),
    ensures
        fields_bytes(fs.take(k)).len() == field_bytes(fs[0]).len() + fields_bytes(
            fs.skip(1).take(k - 1),
        ).len(),
        fields_bytes(fs.take(0)).len() == 0,
{
    assert(fs.take(k).skip(1) =~= fs.skip(1).take(k - 1));
    assert(fs.take(0) =~= Seq::empty());
}

/// A field that is cut is no element.
proof fn lemma_cut_field(d: Seq<u8>, off: int, f: Field)
    requires
        0 <= off <= d.len(),
        d.len() - off < field_bytes(f).len(),
        f.value.len() < 0x10000,
        forall|i: int| 0 <= i < d.len() - off ==> d[off + i] == #[trigger] field_bytes(f)[i],
    ensures
        ber::element_at(d, off, d.len() as int) is None,
{
    let n = f.value.len() as int;
    let w = length_bytes(n);
    let b = field_bytes(f);
    if off + 1 < d.len() {
        assert(b[1] == w[0]);
        assert(d[off + 1] == b[1]);
        if off + 1 + w.len() <= d.len() {
            assert(d.subrange(off + 1, off + 1 + w.len()) =~= w) by {
                assert forall|i: int| 0 <= i < w.len() implies d[off + 1 + i] == w[i] by {
                    assert(b[1 + i] == w[i]);
                    assert(d[off + (1 + i)] == b[1 + i]);
                }
            }
            law_lengths_read_back(d, off + 1, n);
        }
    }
}

/// A GOOSE frame that is cut inside its PDU still tells the fields that are whole.
pub proof fn law_a_cut_goose_tells_its_whole_fields(
    addresses: Seq<u8>,
    appid: u16,
    rest: Seq<u8>,
    fs: Seq<Field>,
    n: int,
)
    requires
        addresses.len() == 12,
        rest.len() == 6,
        fields_bytes(fs).len() < 0x10000,
        writable(fs),
        0 <= n <= fields_bytes(fs).len(),
    ensures
        ({
            let whole = goose_frame(addresses, appid, rest, fs, Seq::empty());
            let head = 23 + length_bytes(fields_bytes(fs).len() as int).len();
            let f = classify::classified(whole.take(head + n));
            exists|k: int|
                0 <= k <= fs.len() && #[trigger] is_cut_after(fs, n, k) && {
                    let some = fs.take(k);
                    &&& f.proto == Protocol::Goose
                    &&& f.app.appid == Some(appid)
                    &&& f.app.sim == Some(rest[2] >= 128)
                    &&& lacks(some, 0x83) ==> tells_text(f.app.svid, some, 0x80)
                    &&& !lacks(some, 0x83) ==> tells_text(f.app.svid, some, 0x83)
                    &&& tells_number(f.app.noasdu, some, 0x85)
                    &&& tells_number(f.app.confrev, some, 0x88)
                }
        }),
{
    let body = fields_bytes(fs);
    let w = length_bytes(body.len() as int);
    let whole = goose_frame(addresses, appid, rest, fs, Seq::empty());
    let head = 23 + w.len() as int;
    let d = whole.take(head + n);
    assert(whole.len() == head + body.len());
    assert(d[12] == 0x88 && d[13] == 0xB8 && d[14] == (appid / 256) as u8 && d[15] == (appid
        % 256) as u8 && d[18] == rest[2] && d[22] == 0x61);
    assert(d.subrange(23, 23 + w.len() as int) =~= w);
    law_lengths_read_back(d, 23, body.len() as int);
    assert(d.skip(head) =~= body.take(n));
    lemma_cut_fields(d, head, fs);
    let es = ber::elements(d, head, d.len() as int);
    let k = choose|k: int|
        0 <= k <= fs.len() && #[trigger] stand_for(d, es, fs.take(k)) && is_cut_after(fs, n, k);
    let some = fs.take(k);
    assert(classify::pdu_elements(d, 22) == es);
    classify_laws::law_ethertypes_name_protocols(d);
    assert(classify::payload_type_at(d) == 12);
    lemma_tells(d, es, some, 0x80);
    lemma_tells(d, es, some, 0x83);
    lemma_tells(d, es, some, 0x85);
    lemma_tells(d, es, some, 0x88);
    assert(is_cut_after(fs, n, k));
}

/// A length is one byte below 128; else that byte tells how many bytes behind it
/// hold the length, which is zero where they are not all there.
pub proof fn law_lengths_have_two_forms(d: Seq<u8>, off: int)
    requires
        0 <= off,
    ensures
        off >= d.len() ==> ber::length_at(d, off) == (0nat, 0nat),
        off < d.len() && d[off] < 128 ==> ber::length_at(d, off) == (d[off] as nat, 1nat),
        off < d.len() && d[off] >= 128 ==> ({
            let n = d[off] - 128;
            let (len, octets) = ber::length_at(d, off);
            &&& octets == 1 + n
            &&& off + 1 + n > d.len() ==> len == 0
            &&& off + 1 + n <= d.len() ==> {
                let v = number_in(d.subrange(off + 1, off + 1 + n));
                len == (if v <= usize::MAX {
                    v
                } else {
                    usize::MAX as nat
                })
            }
        }),
{
    if off < d.len() && d[off] >= 128 {
        let n = d[off] - 128;
        if off + 1 + n <= d.len() {
            lemma_number(d.subrange(off + 1, off + 1 + n));
        }
    }
}

} // verus!
