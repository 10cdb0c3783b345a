//! What holds of every report.
use crate::counts;
use crate::parse;
use crate::parse::{Protocol, PROTO_ORDER};
use crate::report;
use crate::report::{RowKind, N_COLUMNS};
use crate::rows;
use vstd::prelude::*;

verus! {

/// The bytes of the detail and `Other` rows.
pub open spec fn counted_bytes(rs: Seq<report::RowView>) -> nat
    decreases rs.len(),
{
    if rs.len() == 0 {
        0
    } else {
        counted_bytes(rs.drop_last()) + (match rs.last().kind {
            RowKind::Detail | RowKind::Other => match rs.last().bytes {
                Some(b) => b as nat,
                None => 0nat,
            },
            _ => 0nat,
        })
    }
}

/// The rows that sum no others: detail, idle and `Other` rows, in their order.
pub open spec fn plain_rows(rs: Seq<report::RowView>) -> Seq<report::RowView>
    decreases rs.len(),
{
    if rs.len() == 0 {
        Seq::empty()
    } else {
        let front = plain_rows(rs.drop_last());
        match rs.last().kind {
            RowKind::Detail | RowKind::Idle | RowKind::Other => front.push(rs.last()),
            _ => front,
        }
    }
}

/// The same scene without a display filter.
pub open spec fn unfiltered(s: report::Scene) -> report::Scene {
    report::Scene { filter: Map::empty(), ..s }
}

proof fn lemma_counted_add(a: Seq<report::RowView>, b: Seq<report::RowView>)
    ensures
        counted_bytes(a + b) == counted_bytes(a) + counted_bytes(b),
    decreases b.len(),
{
    if b.len() == 0 {
        assert(a + b =~= a);
    } else {
        assert((a + b).drop_last() =~= a + b.drop_last());
        lemma_counted_add(a, b.drop_last());
    }
}

proof fn lemma_plain_add(a: Seq<report::RowView>, b: Seq<report::RowView>)
    ensures
        plain_rows(a + b) == plain_rows(a) + plain_rows(b),
    decreases b.len(),
{
    if b.len() == 0 {
        assert(a + b =~= a);
        assert(plain_rows(a) + plain_rows(b) =~= plain_rows(a));
    } else {
        assert((a + b).drop_last() =~= a + b.drop_last());
        lemma_plain_add(a, b.drop_last());
        assert(plain_rows(a + b) =~= plain_rows(a) + plain_rows(b));
    }
}

proof fn lemma_kept_add(
    f: Map<usize, Seq<Seq<char>>>,
    a: Seq<report::RowView>,
    b: Seq<report::RowView>,
)
    ensures
        report::kept(f, a + b) == report::kept(f, a) + report::kept(f, b),
    decreases b.len(),
{
    if b.len() == 0 {
        assert(a + b =~= a);
        assert(report::kept(f, a) + report::kept(f, b) =~= report::kept(f, a));
    } else {
        assert((a + b).drop_last() =~= a + b.drop_last());
        lemma_kept_add(f, a, b.drop_last());
        assert(report::kept(f, a + b) =~= report::kept(f, a) + report::kept(f, b));
    }
}

proof fn lemma_all_plain(rs: Seq<report::RowView>)
    requires
        forall|i: int|
            0 <= i < rs.len() ==> (#[trigger] rs[i]).kind == RowKind::Detail || rs[i].kind
                == RowKind::Idle,
    ensures
        plain_rows(rs) == rs,
    decreases rs.len(),
{
    if rs.len() > 0 {
        let front = rs.drop_last();
        assert forall|i: int| 0 <= i < front.len() implies (#[trigger] front[i]).kind
            == RowKind::Detail || front[i].kind == RowKind::Idle by {
            assert(front[i] == rs[i]);
        }
        assert(rs[rs.len() - 1] == rs.last());
        lemma_all_plain(front);
        assert(rs =~= front.push(rs.last()));
    } else {
        assert(rs =~= Seq::empty());
    }
}

/// What a protocol offers are detail rows with a byte count or idle rows
/// without.
proof fn lemma_candidate_kinds(s: report::Scene, p: Protocol)
    ensures
        forall|i: int|
            0 <= i < report::candidates(s, p).len() ==> ({
                let row = #[trigger] report::candidates(s, p)[i];
                &&& row.kind == RowKind::Detail && row.bytes is Some || row.kind == RowKind::Idle
                    && row.bytes is None
                &&& row.cells.len() == N_COLUMNS
            }),
{
}

/// The display filter keeps rows as they are.
proof fn lemma_kept_rows(f: Map<usize, Seq<Seq<char>>>, rs: Seq<report::RowView>)
    ensures
        forall|i: int|
            0 <= i < report::kept(f, rs).len() ==> rs.contains(#[trigger] report::kept(f, rs)[i])
                && report::allows(f, report::kept(f, rs)[i].cells),
    decreases rs.len(),
{
    if rs.len() > 0 {
        let front = rs.drop_last();
        lemma_kept_rows(f, front);
        assert(rs[rs.len() - 1] == rs.last());
        assert forall|i: int| 0 <= i < report::kept(f, rs).len() implies rs.contains(
            #[trigger] report::kept(f, rs)[i],
        ) && report::allows(f, report::kept(f, rs)[i].cells) by {
            if i < report::kept(f, front).len() {
                let row = report::kept(f, front)[i];
                assert(front.contains(row));
                let k = front.index_of(row);
                assert(rs[k] == row);
            }
        }
    }
}

/// Without a filter every row is kept.
proof fn lemma_kept_all(rs: Seq<report::RowView>)
    ensures
        report::kept(Map::empty(), rs) == rs,
    decreases rs.len(),
{
    if rs.len() > 0 {
        lemma_kept_all(rs.drop_last());
        assert(rs =~= rs.drop_last().push(rs.last()));
    } else {
        assert(rs =~= Seq::empty());
    }
}

proof fn lemma_counted_is_bytes(rs: Seq<report::RowView>)
    requires
        forall|i: int|
            0 <= i < rs.len() ==> (#[trigger] rs[i]).kind == RowKind::Detail || rs[i].kind
                == RowKind::Idle && rs[i].bytes is None,
    ensures
        counted_bytes(rs) == report::bytes_of(rs),
    decreases rs.len(),
{
    if rs.len() > 0 {
        assert forall|i: int| 0 <= i < rs.drop_last().len() implies (
        #[trigger] rs.drop_last()[i]).kind == RowKind::Detail || rs.drop_last()[i].kind
            == RowKind::Idle && rs.drop_last()[i].bytes is None by {
            assert(rs[i] == rs.drop_last()[i]);
        }
        assert(rs[rs.len() - 1] == rs.last());
        lemma_counted_is_bytes(rs.drop_last());
    }
}

proof fn lemma_section_counted(s: report::Scene, p: Protocol)
    ensures
        counted_bytes(report::section(s, p)) == report::bytes_of(report::shown(s, p)),
        forall|i: int|
            0 <= i < report::section(s, p).len() ==> (#[trigger] report::section(
                s,
                p,
            )[i]).cells.len() == N_COLUMNS && report::section(s, p)[i].kind != RowKind::Total,
        plain_rows(report::section(s, p)) == report::shown(s, p),
{
    let rs = report::shown(s, p);
    lemma_candidate_kinds(s, p);
    lemma_kept_rows(s.filter, report::candidates(s, p));
    assert forall|i: int| 0 <= i < rs.len() implies ((#[trigger] rs[i]).kind == RowKind::Detail
        || rs[i].kind == RowKind::Idle && rs[i].bytes is None) && rs[i].cells.len()
        == N_COLUMNS by {
        let k = report::candidates(s, p).index_of(rs[i]);
        assert(report::candidates(s, p)[k] == rs[i]);
    }
    lemma_counted_is_bytes(rs);
    lemma_all_plain(rs);
    let whole = report::section(s, p);
    if whole != rs {
        assert(whole.drop_last() =~= rs);
        assert forall|i: int| 0 <= i < whole.len() implies (#[trigger] whole[i]).cells.len()
            == N_COLUMNS && whole[i].kind != RowKind::Total by {
            if i < rs.len() {
                assert(whole[i] == rs[i]);
            }
        }
    }
}

proof fn lemma_sections_counted(s: report::Scene, n: int)
    requires
        0 <= n <= PROTO_ORDER@.len(),
    ensures
        counted_bytes(report::sections(s, n)) == report::shown_bytes(s, n),
        forall|i: int|
            0 <= i < report::sections(s, n).len() ==> (#[trigger] report::sections(
                s,
                n,
            )[i]).cells.len() == N_COLUMNS && report::sections(s, n)[i].kind != RowKind::Total,
    decreases n,
{
    if n > 0 {
        lemma_sections_counted(s, n - 1);
        let p = PROTO_ORDER@[n - 1];
        lemma_section_counted(s, p);
        lemma_counted_add(report::sections(s, n - 1), report::section(s, p));
        assert forall|i: int| 0 <= i < report::sections(s, n).len() implies (
        #[trigger] report::sections(s, n)[i]).cells.len() == N_COLUMNS && report::sections(
            s,
            n,
        )[i].kind != RowKind::Total by {
            let early = report::sections(s, n - 1);
            if i < early.len() {
                assert(report::sections(s, n)[i] == early[i]);
            } else {
                assert(report::sections(s, n)[i] == report::section(s, p)[i - early.len()]);
            }
        }
    }
}

/// The grand total is the last row, and sums exactly the detail and `Other`
/// rows above it: subtotals are not counted twice and idle rows count nothing.
pub proof fn law_total_sums_everything_shown(s: report::Scene)
    ensures
        report::report_rows(s).last() == report::total_row(s),
        report::total_row(s).kind == RowKind::Total,
        report::total_row(s).cells[0] == "TOTAL"@,
        forall|i: int|
            0 <= i < report::report_rows(s).len() - 1 ==> (#[trigger] report::report_rows(
                s,
            )[i]).kind != RowKind::Total,
        report::total_bytes(s) <= u64::MAX ==> counted_bytes(report::report_rows(s))
            == report::total_bytes(s),
        report::total_bytes(s) <= u64::MAX ==> report::total_row(s).bytes == Some(
            report::total_bytes(s) as u64,
        ),
{
    let n = PROTO_ORDER@.len() as int;
    let parts = report::sections(s, n);
    lemma_sections_counted(s, n);
    let above = if report::other_shown(s) {
        parts.push(report::other_row(s))
    } else {
        parts
    };
    if report::other_shown(s) {
        assert(above.drop_last() =~= parts);
        assert(above.last() == report::other_row(s));
        if report::total_bytes(s) <= u64::MAX {
            assert(counted_bytes(above) == counted_bytes(parts) + report::other_bytes(s));
        }
    }
    assert(report::report_rows(s).drop_last() =~= above);
    assert(counted_bytes(report::report_rows(s)) == counted_bytes(above));
}

/// Every row has a cell for every column.
pub proof fn law_rows_fill_all_columns(s: report::Scene, i: int)
    requires
        0 <= i < report::report_rows(s).len(),
    ensures
        report::report_rows(s)[i].cells.len() == N_COLUMNS,
{
    lemma_sections_counted(s, PROTO_ORDER@.len() as int);
    let parts = report::sections(s, PROTO_ORDER@.len() as int);
    if i < parts.len() {
        assert(report::report_rows(s)[i] == parts[i]);
    }
}

proof fn lemma_unfiltered_split(s: report::Scene, n: int)
    requires
        0 <= n <= PROTO_ORDER@.len(),
    ensures
        report::shown_bytes(unfiltered(s), n) + report::folded_bytes(unfiltered(s), n)
            == report::featured_bytes(s.stats, n),
    decreases n,
{
    if n > 0 {
        let u = unfiltered(s);
        let p = PROTO_ORDER@[n - 1];
        lemma_unfiltered_split(s, n - 1);
        report::lemma_candidate_bytes(u, p);
        lemma_kept_all(report::candidates(u, p));
    }
}

/// Without a display filter the grand total is all the traffic of the window,
/// whichever protocols are broken out.
pub proof fn law_unfiltered_total_is_all_traffic(s: report::Scene)
    requires
        counts::protocols_distinct(s.stats),
    ensures
        report::total_bytes(unfiltered(s)) == counts::bytes_over(s.stats),
{
    lemma_unfiltered_split(s, PROTO_ORDER@.len() as int);
    report::lemma_partition(s.stats);
}

/// Breaking a protocol out moves its traffic from `Other` to rows of its own and
/// neither loses nor doubles a byte: without a display filter, the grand total
/// is the same row whichever protocols are broken out.
pub proof fn law_breaking_out_keeps_the_total(s: report::Scene, enabled: Set<Protocol>)
    requires
        counts::protocols_distinct(s.stats),
    ensures
        ({
            let a = unfiltered(s);
            let b = report::Scene { enabled, ..a };
            &&& report::report_rows(a).last() == report::report_rows(b).last()
            &&& report::total_row(a).bytes == Some(counts::bytes_over(s.stats) as u64)
        }),
{
    let other = report::Scene { enabled, ..s };
    law_unfiltered_total_is_all_traffic(s);
    law_unfiltered_total_is_all_traffic(other);
    assert(unfiltered(other) == (report::Scene { enabled, ..unfiltered(s) }));
}

/// With no protocol broken out, everything folds into `Other`.
pub proof fn law_nothing_enabled_folds_everything(s: report::Scene)
    requires
        counts::protocols_distinct(s.stats),
        s.enabled == Set::<Protocol>::empty(),
    ensures
        report::other_bytes(s) == counts::bytes_over(s.stats),
        report::sections(s, PROTO_ORDER@.len() as int).len() == 0,
{
    lemma_all_folded(s, PROTO_ORDER@.len() as int);
    report::lemma_partition(s.stats);
}

proof fn lemma_all_folded(s: report::Scene, n: int)
    requires
        s.enabled == Set::<Protocol>::empty(),
    ensures
        report::folded_bytes(s, n) == report::featured_bytes(s.stats, n),
        report::sections(s, n).len() == 0,
    decreases n,
{
    if n > 0 {
        lemma_all_folded(s, n - 1);
    }
}

/// A subtotal stands only below two or more rows, and sums them.
pub proof fn law_subtotal_sums_several_rows(s: report::Scene, p: Protocol)
    requires
        report::section(s, p) != report::shown(s, p),
    ensures
        report::shown(s, p).len() > 1,
        report::section(s, p).last().kind == RowKind::Subtotal,
        report::bytes_of(report::shown(s, p)) <= u64::MAX ==> report::section(s, p).last().bytes
            == Some(report::bytes_of(report::shown(s, p)) as u64),
{
}

proof fn lemma_offered_ignores_filter(s: report::Scene, n: int)
    ensures
        report::offered(unfiltered(s), n) == report::offered(s, n),
        report::folded_bytes(unfiltered(s), n) == report::folded_bytes(s, n),
    decreases n,
{
    if n > 0 {
        lemma_offered_ignores_filter(s, n - 1);
        let p = PROTO_ORDER@[n - 1];
        assert(report::candidates(unfiltered(s), p) =~= report::candidates(s, p));
    }
}

/// The display filter changes nothing about which values are on offer: a value
/// it hides can be chosen again.
pub proof fn law_hidden_values_stay_on_offer(s: report::Scene)
    ensures
        report::all_offered(unfiltered(s)) == report::all_offered(s),
{
    lemma_offered_ignores_filter(s, PROTO_ORDER@.len() as int);
}

/// Every row that shows has allowed values, and every row with allowed values
/// shows.
pub proof fn law_filter_decides_what_shows(s: report::Scene, p: Protocol, row: report::RowView)
    ensures
        report::shown(s, p).contains(row) <==> report::candidates(s, p).contains(row)
            && report::allows(s.filter, row.cells),
{
    let all = report::candidates(s, p);
    lemma_kept_rows(s.filter, all);
    lemma_kept_complete(s.filter, all, row);
    if report::shown(s, p).contains(row) {
        let i = report::shown(s, p).index_of(row);
        assert(report::kept(s.filter, all)[i] == row);
    }
}

proof fn lemma_sections_filtered(s: report::Scene, n: int)
    requires
        0 <= n <= PROTO_ORDER@.len(),
    ensures
        plain_rows(report::sections(s, n)) == report::kept(
            s.filter,
            plain_rows(report::sections(unfiltered(s), n)),
        ),
    decreases n,
{
    if n > 0 {
        let u = unfiltered(s);
        let p = PROTO_ORDER@[n - 1];
        lemma_sections_filtered(s, n - 1);
        if s.enabled.contains(p) {
            lemma_section_counted(s, p);
            lemma_section_counted(u, p);
            assert(report::candidates(u, p) =~= report::candidates(s, p));
            lemma_kept_all(report::candidates(u, p));
            lemma_plain_add(report::sections(s, n - 1), report::section(s, p));
            lemma_plain_add(report::sections(u, n - 1), report::section(u, p));
            lemma_kept_add(
                s.filter,
                plain_rows(report::sections(u, n - 1)),
                plain_rows(report::section(u, p)),
            );
        }
    }
}

/// The detail, idle and `Other` rows of a table are exactly those of the table
/// without a display filter whose values are all allowed, in the same order.
pub proof fn law_a_filtered_table_is_part_of_the_whole(s: report::Scene)
    ensures
        plain_rows(report::report_rows(s)) == report::kept(
            s.filter,
            plain_rows(report::report_rows(unfiltered(s))),
        ),
{
    let u = unfiltered(s);
    let n = PROTO_ORDER@.len() as int;
    let all = report::sections(u, n);
    lemma_sections_filtered(s, n);
    lemma_offered_ignores_filter(s, n);
    assert(report::other_row(u) == report::other_row(s));
    let row = report::other_row(s);
    lemma_plain_table(s);
    lemma_plain_table(u);
    if report::other_bytes(s) > 0 {
        assert(report::other_shown(u));
        assert(plain_rows(all).push(row).drop_last() =~= plain_rows(all));
        assert(plain_rows(all).push(row).last() == row);
    }
}

/// The grand total is no plain row, and `Other` is one.
proof fn lemma_plain_table(s: report::Scene)
    ensures
        plain_rows(report::report_rows(s)) == (if report::other_shown(s) {
            plain_rows(report::sections(s, PROTO_ORDER@.len() as int)).push(report::other_row(s))
        } else {
            plain_rows(report::sections(s, PROTO_ORDER@.len() as int))
        }),
{
    let parts = report::sections(s, PROTO_ORDER@.len() as int);
    let row = report::other_row(s);
    let above = if report::other_shown(s) {
        parts.push(row)
    } else {
        parts
    };
    assert(report::report_rows(s).drop_last() =~= above);
    assert(report::report_rows(s).last() == report::total_row(s));
    assert(plain_rows(report::report_rows(s)) == plain_rows(above));
    if report::other_shown(s) {
        assert(above.drop_last() =~= parts);
        assert(above.last() == row);
    }
}

proof fn lemma_kept_complete(
    f: Map<usize, Seq<Seq<char>>>,
    rs: Seq<report::RowView>,
    row: report::RowView,
)
    ensures
        rs.contains(row) && report::allows(f, row.cells) ==> report::kept(f, rs).contains(row),
    decreases rs.len(),
{
    if rs.contains(row) && report::allows(f, row.cells) {
        let i = rs.index_of(row);
        let front = rs.drop_last();
        if i == rs.len() - 1 {
            let k = report::kept(f, front);
            assert(report::kept(f, rs)[k.len() as int] == row);
        } else {
            assert(front[i] == row);
            lemma_kept_complete(f, front, row);
            let j = report::kept(f, front).index_of(row);
            assert(report::kept(f, rs)[j] == row);
        }
    }
}

/// A broken-out protocol silent this window but seen before still shows its
/// last known rows, without a rate.
pub proof fn law_idle_protocols_stay_visible(s: report::Scene, p: Protocol, n: int)
    requires
        counts::rows_of(s.stats, p).len() == 0,
        report::idle_from(s.idle, p, 0) == Some(n),
        s.filter == Map::<usize, Seq<Seq<char>>>::empty(),
    ensures
        report::section(s, p).len() == s.idle[n].1.len(),
        forall|i: int|
            0 <= i < report::section(s, p).len() ==> (#[trigger] report::section(s, p)[i]).kind
                == RowKind::Idle && report::section(s, p)[i].bytes is None,
{
    let none = counts::rows_of(s.stats, p);
    rows::law_rows_are_sorted(none);
    rows::law_rows_are_sorted(s.idle[n].1);
    lemma_kept_all(report::candidates(s, p));
}

} // verus!
