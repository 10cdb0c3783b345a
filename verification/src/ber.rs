//! Bounded reading of BER (ASN.1 Basic Encoding Rules) elements.
//!
//! Every reader here is total: a truncated or hostile buffer yields fewer
//! elements, never a panic.
use vstd::prelude::*;
use vstd::slice::slice_subrange;

verus! {

// ---- Model ----------------------------------------------------------------

/// The big-endian value of a byte string.
pub open spec fn be_value(bytes: Seq<u8>) -> nat
    decreases bytes.len(),
{
    if bytes.len() == 0 {
        0
    } else {
        be_value(bytes.drop_last()) * 256 + bytes.last() as nat
    }
}

/// `v`, or `limit` where `v` is larger.
pub open spec fn at_most(v: nat, limit: nat) -> nat {
    if v <= limit {
        v
    } else {
        limit
    }
}

/// The big-endian sixteen-bit value at `off`.
pub open spec fn be16(d: Seq<u8>, off: int) -> u16 {
    (d[off] * 256 + d[off + 1]) as u16
}

/// Whether the byte at `off` exists and equals `b`.
pub open spec fn byte_is(d: Seq<u8>, off: int, b: u8) -> bool {
    0 <= off < d.len() && d[off] == b
}

/// A byte as displayed: printable ASCII is itself, anything else a dot.
pub open spec fn shown_byte(b: u8) -> char {
    if 0x20 <= b < 0x7F {
        b as char
    } else {
        '.'
    }
}

/// A byte string as displayed.
pub open spec fn shown(bytes: Seq<u8>) -> Seq<char> {
    Seq::new(bytes.len(), |i: int| shown_byte(bytes[i]))
}

/// The BER length at `off` and the number of octets it occupies.
///
/// A long form running past the buffer reads as length zero, and a length
/// that does not fit `usize` as `usize::MAX`.
pub open spec fn length_at(d: Seq<u8>, off: int) -> (nat, nat) {
    if off < 0 || off >= d.len() {
        (0, 0)
    } else if d[off] < 0x80 {
        (d[off] as nat, 1)
    } else {
        let n = d[off] - 0x80;
        if off + 1 + n > d.len() {
            (0, (1 + n) as nat)
        } else {
            (at_most(be_value(d.subrange(off + 1, off + 1 + n)), usize::MAX as nat), (1 + n) as nat)
        }
    }
}

/// One BER element: its tag and the half-open range of its value.
pub ghost struct Element {
    pub tag: u8,
    pub start: int,
    pub end: int,
}

/// The element starting at `off`, when it lies wholly before `end`.
pub open spec fn element_at(d: Seq<u8>, off: int, end: int) -> Option<Element> {
    if off + 1 >= end {
        None
    } else {
        let (len, octets) = length_at(d, off + 1);
        let start = off + 1 + octets;
        if start + len > end {
            None
        } else {
            Some(Element { tag: d[off], start, end: start + len })
        }
    }
}

/// The consecutive elements from `off` on, up to the first that does not fit
/// before `end`.
pub open spec fn elements(d: Seq<u8>, off: int, end: int) -> Seq<Element>
    decreases end - off,
{
    match element_at(d, off, end) {
        None => Seq::empty(),
        Some(e) => if e.end > off {
            seq![e] + elements(d, e.end, end)
        } else {
            seq![e]
        },
    }
}

/// The last element carrying `tag`.
pub open spec fn last_of(es: Seq<Element>, tag: u8) -> Option<Element>
    decreases es.len(),
{
    if es.len() == 0 {
        None
    } else if es.last().tag == tag {
        Some(es.last())
    } else {
        last_of(es.drop_last(), tag)
    }
}

/// The value bytes of an element.
pub open spec fn value_of(d: Seq<u8>, e: Element) -> Seq<u8> {
    d.subrange(e.start, e.end)
}

/// The displayed text of the last element carrying `tag`.
pub open spec fn text_field(d: Seq<u8>, es: Seq<Element>, tag: u8) -> Option<Seq<char>> {
    match last_of(es, tag) {
        None => None,
        Some(e) => Some(shown(value_of(d, e))),
    }
}

/// The number in the last element carrying `tag`, saturating at `u64::MAX`.
pub open spec fn uint_field(d: Seq<u8>, es: Seq<Element>, tag: u8) -> Option<u64> {
    match last_of(es, tag) {
        None => None,
        Some(e) => Some(at_most(be_value(value_of(d, e)), u64::MAX as nat) as u64),
    }
}

// ---- Facts ----------------------------------------------------------------

/// A longer byte string never has a smaller value.
pub proof fn lemma_be_value_grows(bytes: Seq<u8>, n: int)
    requires
        0 <= n <= bytes.len(),
    ensures
        be_value(bytes.take(n)) <= be_value(bytes),
    decreases bytes.len() - n,
{
    if n < bytes.len() {
        let longer = bytes.take(n + 1);
        assert(longer.drop_last() =~= bytes.take(n));
        lemma_be_value_grows(bytes, n + 1);
    } else {
        assert(bytes.take(n) =~= bytes);
    }
}

/// An element that fits occupies bytes inside the range it was read from.
pub proof fn lemma_element_inside(d: Seq<u8>, off: int, end: int)
    requires
        0 <= off,
        end <= d.len(),
    ensures
        element_at(d, off, end) matches Some(e) ==> off + 2 <= e.start <= e.end <= end,
{
}

/// The first element followed by the rest.
pub proof fn lemma_elements_step(d: Seq<u8>, off: int, end: int)
    requires
        0 <= off,
        end <= d.len(),
    ensures
        match element_at(d, off, end) {
            None => elements(d, off, end) == Seq::<Element>::empty(),
            Some(e) => elements(d, off, end) == seq![e] + elements(d, e.end, end),
        },
{
    lemma_element_inside(d, off, end);
}

/// Appending an element decides the last one of its tag and no other.
pub broadcast proof fn lemma_last_of_push(es: Seq<Element>, e: Element, tag: u8)
    ensures
        #[trigger] last_of(es.push(e), tag) == (if e.tag == tag {
            Some(e)
        } else {
            last_of(es, tag)
        }),
{
    assert(es.push(e).drop_last() =~= es);
}

/// Appending a list of elements takes their last one of a tag if they have
/// any.
pub proof fn lemma_last_of_add(es: Seq<Element>, more: Seq<Element>, tag: u8)
    ensures
        last_of(es + more, tag) == (if last_of(more, tag) is Some {
            last_of(more, tag)
        } else {
            last_of(es, tag)
        }),
    decreases more.len(),
{
    if more.len() == 0 {
        assert(es + more =~= es);
    } else {
        assert((es + more).drop_last() =~= es + more.drop_last());
        lemma_last_of_add(es, more.drop_last(), tag);
    }
}

/// The last element of a tag is one of the elements.
pub proof fn lemma_last_of_is_member(es: Seq<Element>, tag: u8)
    ensures
        last_of(es, tag) matches Some(e) ==> es.contains(e) && e.tag == tag,
    decreases es.len(),
{
    if es.len() > 0 && es.last().tag != tag {
        lemma_last_of_is_member(es.drop_last(), tag);
        if let Some(e) = last_of(es.drop_last(), tag) {
            let i = es.drop_last().index_of(e);
            assert(es[i] == e);
        }
    } else if es.len() > 0 {
        assert(es[es.len() - 1] == es.last());
    }
}

// ---- Readers ----------------------------------------------------------------

/// Big-endian u16 at `off`, or `None` if it would read past the end.
pub fn u16be(data: &[u8], off: usize) -> (r: Option<u16>)
    ensures
        r == (if off + 2 <= data@.len() {
            Some(be16(data@, off as int))
        } else {
            None
        }),
{
    if off < data.len() && off + 1 < data.len() {
        Some(data[off] as u16 * 256 + data[off + 1] as u16)
    } else {
        None
    }
}

/// Big-endian unsigned integer over `bytes`, saturating at `u64::MAX`.
///
/// BER INTEGERs are variable-length and a corrupt frame can claim a very long
/// one; saturating keeps the value meaningless-but-harmless instead of
/// wrapping into a plausible-looking small number.
pub fn be_uint(bytes: &[u8]) -> (v: u64)
    ensures
        v == at_most(be_value(bytes@), u64::MAX as nat),
{
    let mut v: u64 = 0;
    let mut i: usize = 0;
    while i < bytes.len()
        invariant
            i <= bytes@.len(),
            v == be_value(bytes@.take(i as int)),
        decreases bytes@.len() - i,
    {
        let ghost next = bytes@.take(i + 1);
        assert(next.drop_last() =~= bytes@.take(i as int));
        assert(next.last() == bytes@[i as int]);
        if v > (u64::MAX - bytes[i] as u64) / 256 {
            proof {
                lemma_be_value_grows(bytes@, i + 1);
            }
            return u64::MAX;
        }
        v = v * 256 + bytes[i] as u64;
        i += 1;
    }
    assert(bytes@.take(i as int) =~= bytes@);
    v
}

/// Decode a BER VisibleString, replacing anything non-printable.
///
/// These strings land in a terminal table and a GUI grid, so a frame carrying
/// control bytes must not be able to move the cursor or inject escapes.
pub fn ber_string(bytes: &[u8]) -> (r: String)
    ensures
        r@ == shown(bytes@),
{
    let mut out: String = String::new();
    let mut i: usize = 0;
    while i < bytes.len()
        invariant
            i <= bytes@.len(),
            out@ == shown(bytes@).take(i as int),
        decreases bytes@.len() - i,
    {
        let b: u8 = bytes[i];
        if 0x20 <= b && b < 0x7F {
            out.push(b as char);
        } else {
            out.push('.');
        }
        assert(out@ =~= shown(bytes@).take(i + 1));
        i += 1;
    }
    assert(out@ =~= shown(bytes@));
    out
}

/// BER length octet(s) at `off`, returning `(length, bytes_consumed)`.
///
/// Short form (`< 0x80`) is the length itself; long form has the high bit set
/// with the low 7 bits giving the number of big-endian length bytes that
/// follow. A length too large for `usize` saturates: callers bound every
/// resulting offset against the buffer anyway, so a saturated value simply
/// fails that check.
pub fn ber_len(data: &[u8], off: usize) -> (r: (usize, usize))
    ensures
        (r.0 as nat, r.1 as nat) == length_at(data@, off as int),
        r.1 <= 128,
{
    if off >= data.len() {
        return (0, 0);
    }
    let b: u8 = data[off];
    if b < 0x80 {
        return (b as usize, 1);
    }
    let n: usize = b as usize - 0x80;
    if data.len() - off - 1 < n {
        return (0, 1 + n);
    }
    let v: u64 = be_uint(slice_subrange(data, off + 1, off + 1 + n));
    if v > usize::MAX as u64 {
        (usize::MAX, 1 + n)
    } else {
        (v as usize, 1 + n)
    }
}

/// One element read out of a BER walk.
#[derive(Clone, Copy, Debug)]
pub struct Tlv {
    pub tag: u8,
    pub start: usize,
    pub end: usize,
}

impl View for Tlv {
    type V = Element;

    open spec fn view(&self) -> Element {
        Element { tag: self.tag, start: self.start as int, end: self.end as int }
    }
}

/// Read the element at `off`, bounded by `end`. Returns `None` when the range
/// is exhausted or the element's own length runs past `end`.
pub fn read_tlv(data: &[u8], off: usize, end: usize) -> (r: Option<Tlv>)
    requires
        end <= data@.len(),
    ensures
        match r {
            None => element_at(data@, off as int, end as int) is None,
            Some(t) => element_at(data@, off as int, end as int) == Some(t@) && off + 2 <= t.start
                <= t.end <= end,
        },
{
    if end <= 1 || off >= end - 1 {
        return None;
    }
    let (len, consumed) = ber_len(data, off + 1);
    if consumed > end - off - 1 {
        return None;
    }
    let start: usize = off + 1 + consumed;
    if len > end - start {
        return None;
    }
    Some(Tlv { tag: data[off], start, end: start + len })
}

} // verus!
