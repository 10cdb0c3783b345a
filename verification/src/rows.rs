//! The order of table rows within a protocol.
use crate::counts;
use crate::counts::{Counter, KeyMap, StatKey};
use crate::order;
use crate::order::{rank_number, rank_numbers, rank_text, Rank};
use crate::parse;
use vstd::prelude::*;

verus! {

/// An optional number for ordering: a missing one comes last.
pub open spec fn or_last(v: Option<u64>) -> int {
    match v {
        Some(n) => n as int,
        None => u64::MAX as int,
    }
}

/// An optional AppID for ordering: a missing one comes last.
pub open spec fn appid_or_last(v: Option<u16>) -> int {
    match v {
        Some(n) => n as int,
        None => u32::MAX as int,
    }
}

/// An optional text for ordering: a missing one is empty.
pub open spec fn text_or_empty(v: Option<Seq<char>>) -> Seq<char> {
    match v {
        Some(s) => s,
        None => Seq::empty(),
    }
}

/// How one row stands to another: by VLAN ids, redundancy, AppID, identifier,
/// noASDU/stNum and confRev, the first that differs deciding.
pub open spec fn row_rank(a: counts::StatKeyView, b: counts::StatKeyView) -> Rank {
    order::tie_break(
        order::seq_rank(
            order::numbers(parse::tag_ids(a.vlans)),
            order::numbers(parse::tag_ids(b.vlans)),
        ),
        order::tie_break(
            order::text_rank(
                parse::redundancy_text(a.redundancy),
                parse::redundancy_text(b.redundancy),
            ),
            order::tie_break(
                order::seq_rank(
                    seq![appid_or_last(a.app.appid)],
                    seq![appid_or_last(b.app.appid)],
                ),
                order::tie_break(
                    order::text_rank(text_or_empty(a.app.svid), text_or_empty(b.app.svid)),
                    order::tie_break(
                        order::seq_rank(seq![or_last(a.app.noasdu)], seq![or_last(b.app.noasdu)]),
                        order::seq_rank(seq![or_last(a.app.confrev)], seq![or_last(b.app.confrev)]),
                    ),
                ),
            ),
        ),
    )
}

/// A row put into its place in an ordered list, behind those that rank the
/// same.
pub open spec fn placed(
    l: Seq<(counts::StatKeyView, Counter)>,
    e: (counts::StatKeyView, Counter),
) -> Seq<(counts::StatKeyView, Counter)>
    decreases l.len(),
{
    if l.len() == 0 || row_rank(l.last().0, e.0) != Rank::After {
        l.push(e)
    } else {
        placed(l.drop_last(), e).push(l.last())
    }
}

/// The rows in order; those that rank the same stay in the order in which they
/// were first seen.
pub open spec fn in_order(es: Seq<(counts::StatKeyView, Counter)>) -> Seq<
    (counts::StatKeyView, Counter),
>
    decreases es.len(),
{
    if es.len() == 0 {
        Seq::empty()
    } else {
        placed(in_order(es.drop_last()), es.last())
    }
}

// ---- Sorting ----------------------------------------------------------------------

fn first_decision(first: Rank, second: Rank) -> (r: Rank)
    ensures
        r == order::tie_break(first, second),
{
    if first != Rank::Same {
        first
    } else {
        second
    }
}

fn number_or_last(v: Option<u64>) -> (r: u64)
    ensures
        r == or_last(v),
{
    match v {
        Some(n) => n,
        None => u64::MAX,
    }
}

fn svid_or_empty(key: &StatKey) -> (r: String)
    ensures
        r@ == text_or_empty(key@.app.svid),
{
    match &key.app.svid {
        Some(s) => s.clone(),
        None => String::new(),
    }
}

/// How one row stands to another.
pub fn rank_rows(a: &StatKey, b: &StatKey) -> (r: Rank)
    ensures
        r == row_rank(a@, b@),
{
    let vlans: Rank = rank_numbers(a.vlans.ids(), b.vlans.ids());
    let redundancy: Rank = rank_text(
        a.redundancy.to_string().as_str(),
        b.redundancy.to_string().as_str(),
    );
    let appid_a: u64 = match a.app.appid {
        Some(n) => n as u64,
        None => u32::MAX as u64,
    };
    let appid_b: u64 = match b.app.appid {
        Some(n) => n as u64,
        None => u32::MAX as u64,
    };
    let appid: Rank = rank_number(appid_a, appid_b);
    let svid: Rank = rank_text(svid_or_empty(a).as_str(), svid_or_empty(b).as_str());
    let noasdu: Rank = rank_number(number_or_last(a.app.noasdu), number_or_last(b.app.noasdu));
    let confrev: Rank = rank_number(number_or_last(a.app.confrev), number_or_last(b.app.confrev));
    first_decision(
        vlans,
        first_decision(
            redundancy,
            first_decision(appid, first_decision(svid, first_decision(noasdu, confrev))),
        ),
    )
}

/// Where a row goes: behind the last that does not rank after it.
proof fn lemma_placed(
    l: Seq<(counts::StatKeyView, Counter)>,
    e: (counts::StatKeyView, Counter),
    n: int,
)
    requires
        0 <= n <= l.len(),
        n > 0 ==> row_rank(l[n - 1].0, e.0) != Rank::After,
        forall|j: int| n <= j < l.len() ==> row_rank((#[trigger] l[j]).0, e.0) == Rank::After,
    ensures
        placed(l, e) == l.insert(n, e),
    decreases l.len(),
{
    if n == l.len() {
        assert(l.insert(n, e) =~= l.push(e));
    } else {
        assert(row_rank(l[l.len() - 1].0, e.0) == Rank::After);
        lemma_placed(l.drop_last(), e, n);
        assert(l.insert(n, e) =~= l.drop_last().insert(n, e).push(l.last()));
    }
}

/// The rows at the given positions.
pub open spec fn picked(
    es: Seq<(counts::StatKeyView, Counter)>,
    at: Seq<usize>,
) -> Seq<(counts::StatKeyView, Counter)> {
    Seq::new(at.len(), |i: int| es[at[i] as int])
}

/// The positions of a protocol's rows, in display order.
pub fn display_order(rows: &KeyMap) -> (r: Vec<usize>)
    ensures
        r@.len() == rows@.len(),
        forall|i: int| 0 <= i < r@.len() ==> (#[trigger] r@[i]) < rows@.len(),
        picked(rows@, r@) == in_order(rows@),
{
    let entries: &Vec<(StatKey, Counter)> = rows.entries();
    let mut out: Vec<usize> = Vec::new();
    let mut i: usize = 0;
    assert(picked(rows@, out@) =~= in_order(rows@.take(0)));
    while i < entries.len()
        invariant
            i <= entries@.len(),
            counts::entries_view(entries@) == rows@,
            out@.len() == i,
            forall|j: int| 0 <= j < out@.len() ==> (#[trigger] out@[j]) < i,
            picked(rows@, out@) == in_order(rows@.take(i as int)),
        decreases entries@.len() - i,
    {
        let ghost l = picked(rows@, out@);
        let ghost e = rows@[i as int];
        let mut n: usize = out.len();
        while n > 0 && rank_rows(&entries[out[n - 1]].0, &entries[i].0) == Rank::After
            invariant
                n <= out@.len() == i < entries@.len(),
                counts::entries_view(entries@) == rows@,
                forall|j: int| 0 <= j < out@.len() ==> (#[trigger] out@[j]) < i,
                l == picked(rows@, out@),
                e == rows@[i as int],
                forall|j: int|
                    n <= j < l.len() ==> row_rank((#[trigger] l[j]).0, e.0) == Rank::After,
            decreases n,
        {
            assert(l[n - 1].0 == entries@[out@[n - 1] as int].0@);
            n -= 1;
        }
        proof {
            if n > 0 {
                assert(l[n - 1].0 == entries@[out@[n - 1] as int].0@);
            }
            lemma_placed(l, e, n as int);
            assert(rows@.take(i + 1).drop_last() =~= rows@.take(i as int));
            assert(rows@.take(i + 1).last() == e);
        }
        let ghost before = out@;
        out.insert(n, i);
        proof {
            assert(picked(rows@, out@) =~= l.insert(n as int, e));
            assert forall|j: int| 0 <= j < out@.len() implies (#[trigger] out@[j]) < i + 1 by {
                if j < n {
                    assert(out@[j] == before[j]);
                } else if j > n {
                    assert(out@[j] == before[j - 1]);
                }
            }
        }
        i += 1;
    }
    assert(rows@.take(i as int) =~= rows@);
    out
}

// ---- Laws ----------------------------------------------------------------------------

/// Ranking no row after another is transitive.
pub proof fn law_row_order_is_transitive(
    a: counts::StatKeyView,
    b: counts::StatKeyView,
    c: counts::StatKeyView,
)
    requires
        row_rank(a, b) != Rank::After,
        row_rank(b, c) != Rank::After,
    ensures
        row_rank(a, c) != Rank::After,
{
    let va = order::numbers(parse::tag_ids(a.vlans));
    let vb = order::numbers(parse::tag_ids(b.vlans));
    let vc = order::numbers(parse::tag_ids(c.vlans));
    let ra = order::codes(parse::redundancy_text(a.redundancy));
    let rb = order::codes(parse::redundancy_text(b.redundancy));
    let rc = order::codes(parse::redundancy_text(c.redundancy));
    let sa = order::codes(text_or_empty(a.app.svid));
    let sb = order::codes(text_or_empty(b.app.svid));
    let sc = order::codes(text_or_empty(c.app.svid));
    lemma_seq_facts(va, vb, vc);
    lemma_seq_facts(ra, rb, rc);
    lemma_seq_facts(sa, sb, sc);
    lemma_seq_facts(
        seq![appid_or_last(a.app.appid)],
        seq![appid_or_last(b.app.appid)],
        seq![appid_or_last(c.app.appid)],
    );
    lemma_seq_facts(
        seq![or_last(a.app.noasdu)],
        seq![or_last(b.app.noasdu)],
        seq![or_last(c.app.noasdu)],
    );
    lemma_seq_facts(
        seq![or_last(a.app.confrev)],
        seq![or_last(b.app.confrev)],
        seq![or_last(c.app.confrev)],
    );
}

/// What two ranks say of a third.
proof fn lemma_seq_facts(a: Seq<int>, b: Seq<int>, c: Seq<int>)
    ensures
        order::seq_rank(a, b) == Rank::Same ==> order::seq_rank(a, c) == order::seq_rank(b, c),
        order::seq_rank(b, c) == Rank::Same ==> order::seq_rank(a, c) == order::seq_rank(a, b),
        order::seq_rank(a, b) == Rank::Before && order::seq_rank(b, c) == Rank::Before
            ==> order::seq_rank(a, c) == Rank::Before,
{
    order::lemma_seq_rank_same(a, b);
    order::lemma_seq_rank_same(b, c);
    if order::seq_rank(a, b) == Rank::Before && order::seq_rank(b, c) == Rank::Before {
        order::lemma_seq_rank_transitive(a, b, c);
    }
}

/// Of two rows one does not rank after the other.
pub proof fn law_row_order_is_total(a: counts::StatKeyView, b: counts::StatKeyView)
    ensures
        row_rank(b, a) == order::flipped(row_rank(a, b)),
{
    order::lemma_seq_rank_flips(
        order::numbers(parse::tag_ids(a.vlans)),
        order::numbers(parse::tag_ids(b.vlans)),
    );
    order::lemma_seq_rank_flips(
        order::codes(parse::redundancy_text(a.redundancy)),
        order::codes(parse::redundancy_text(b.redundancy)),
    );
    order::lemma_seq_rank_flips(
        seq![appid_or_last(a.app.appid)],
        seq![appid_or_last(b.app.appid)],
    );
    order::lemma_seq_rank_flips(
        order::codes(text_or_empty(a.app.svid)),
        order::codes(text_or_empty(b.app.svid)),
    );
    order::lemma_seq_rank_flips(seq![or_last(a.app.noasdu)], seq![or_last(b.app.noasdu)]);
    order::lemma_seq_rank_flips(seq![or_last(a.app.confrev)], seq![or_last(b.app.confrev)]);
}

/// Whether no row stands before one it ranks after.
pub open spec fn is_ordered(l: Seq<(counts::StatKeyView, Counter)>) -> bool {
    forall|i: int, j: int|
        #![trigger l[i], l[j]]
        0 <= i < j < l.len() ==> row_rank(l[i].0, l[j].0) != Rank::After
}

proof fn lemma_placed_ordered(
    l: Seq<(counts::StatKeyView, Counter)>,
    e: (counts::StatKeyView, Counter),
)
    requires
        is_ordered(l),
    ensures
        is_ordered(placed(l, e)),
        placed(l, e).to_multiset() == l.to_multiset().insert(e),
        placed(l, e).len() == l.len() + 1,
        forall|x: counts::StatKeyView|
            (forall|i: int| 0 <= i < l.len() ==> row_rank((#[trigger] l[i]).0, x) != Rank::After)
                && row_rank(e.0, x) != Rank::After ==> forall|i: int|
                0 <= i < placed(l, e).len() ==> row_rank((#[trigger] placed(l, e)[i]).0, x)
                    != Rank::After,
    decreases l.len(),
{
    broadcast use vstd::seq_lib::group_to_multiset_ensures;

    if l.len() == 0 || row_rank(l.last().0, e.0) != Rank::After {
        let p = l.push(e);
        assert forall|i: int, j: int|
            #![trigger p[i], p[j]]
            0 <= i < j < p.len() implies row_rank(p[i].0, p[j].0) != Rank::After by {
            if j == l.len() && i < l.len() - 1 {
                assert(row_rank(l[i].0, l[l.len() - 1].0) != Rank::After);
                law_row_order_is_transitive(l[i].0, l.last().0, e.0);
            }
        }
    } else {
        let front = l.drop_last();
        let last = l.last();
        lemma_placed_ordered(front, e);
        law_row_order_is_total(last.0, e.0);
        let p = placed(front, e);
        assert forall|i: int| 0 <= i < front.len() implies row_rank((#[trigger] front[i]).0, last.0)
            != Rank::After by {
            assert(row_rank(l[i].0, l[l.len() - 1].0) != Rank::After);
        }
        assert forall|i: int| 0 <= i < p.len() implies row_rank((#[trigger] p[i]).0, last.0)
            != Rank::After by {}
        assert(l =~= front.push(last));
        let whole = p.push(last);
        assert forall|i: int, j: int|
            #![trigger whole[i], whole[j]]
            0 <= i < j < whole.len() implies row_rank(whole[i].0, whole[j].0) != Rank::After by {
            if j == p.len() {
                assert(row_rank(p[i].0, last.0) != Rank::After);
            }
        }
        assert(l.to_multiset().insert(e) =~= front.to_multiset().insert(e).insert(last));
        assert forall|x: counts::StatKeyView|
            (forall|i: int| 0 <= i < l.len() ==> row_rank((#[trigger] l[i]).0, x) != Rank::After)
                && row_rank(e.0, x) != Rank::After implies forall|i: int|
            0 <= i < whole.len() ==> row_rank((#[trigger] whole[i]).0, x) != Rank::After by {
            assert forall|i: int| 0 <= i < front.len() implies row_rank((#[trigger] front[i]).0, x)
                != Rank::After by {
                assert(row_rank(l[i].0, x) != Rank::After);
            }
            assert(row_rank(l[l.len() - 1].0, x) != Rank::After);
        }
    }
}

/// The displayed rows are in order, and are the counted rows: none is lost,
/// added or changed by sorting.
pub proof fn law_rows_are_sorted(es: Seq<(counts::StatKeyView, Counter)>)
    ensures
        is_ordered(in_order(es)),
        in_order(es).to_multiset() == es.to_multiset(),
        in_order(es).len() == es.len(),
    decreases es.len(),
{
    broadcast use vstd::seq_lib::group_to_multiset_ensures;

    if es.len() > 0 {
        law_rows_are_sorted(es.drop_last());
        lemma_placed_ordered(in_order(es.drop_last()), es.last());
        assert(es =~= es.drop_last().push(es.last()));
    } else {
        assert(es =~= Seq::empty());
    }
}

} // verus!
