//! What the command line, the interface list, the export and the window take and
//! give.
use crate::cli;
use crate::cli::{Details, SpeedOrigin, BAR_WIDTH, DRAIN_NS};
use crate::export;
use crate::filter;
use crate::filter_popup;
use crate::iface;
use crate::iface::{Adapter, Naming};
use crate::monitor;
use crate::monitor::{CaptureState, CellLook, Tick};
use crate::order;
use crate::order::Rank;
use crate::parse::{Protocol, PROTO_ORDER};
use crate::report;
use crate::report::{LoadLevel, RowKind, COLUMNS};
use crate::row_laws;
use crate::sets;
use crate::text;
use crate::text_laws;
use vstd::prelude::*;

verus! {

// ---- The command line -----------------------------------------------------------------------------

/// A protocol is broken out by its own flag or by `--all`, and by nothing else.
pub proof fn law_each_flag_breaks_its_protocol_out(d: Details, p: Protocol)
    ensures
        cli::asks_for(d, Protocol::Goose) <==> d.all || d.goose,
        cli::asks_for(d, Protocol::SampledValues) <==> d.all || d.sv,
        cli::asks_for(d, Protocol::RGoose) <==> d.all || d.rgoose,
        cli::asks_for(d, Protocol::Ptp) <==> d.all || d.ptp,
        cli::asks_for(d, Protocol::Mms) <==> d.all || d.mms,
        cli::asks_for(d, Protocol::Dnp3) <==> d.all || d.dnp3,
        cli::asks_for(d, Protocol::Iec104) <==> d.all || d.iec104,
        cli::asks_for(d, Protocol::ModbusTcp) <==> d.all || d.modbus,
        !PROTO_ORDER@.contains(p) ==> !cli::asks_for(d, p),
{
    let o = PROTO_ORDER@;
    row_laws::law_protocols_stand_in_order();
    assert(o[0] == Protocol::Goose && o[1] == Protocol::SampledValues && o[2] == Protocol::RGoose
        && o[3] == Protocol::Ptp && o[4] == Protocol::Mms && o[5] == Protocol::Dnp3 && o[6]
        == Protocol::Iec104 && o[7] == Protocol::ModbusTcp);
}

/// A filter reads as its constraints: `vlan=` and the ids, `redundancy=` and the
/// tokens, `appid=` and the AppIDs in hexadecimal, `id=` and the identifiers; each
/// listed in order with commas, a space between the constraints.
pub proof fn law_filters_read_as_their_constraints(f: filter::FrameFilterView)
    ensures
        ({
            let parts = filter::summary_parts(f);
            let a = if f.vlans is Some {
                1int
            } else {
                0
            };
            let b = if f.redundancy is Some {
                a + 1
            } else {
                a
            };
            let c = if f.appids is Some {
                b + 1
            } else {
                b
            };
            let d = if f.svids is Some {
                c + 1
            } else {
                c
            };
            &&& parts.len() == d
            &&& f.vlans is Some ==> parts[0] == "vlan="@ + text::joined(
                filter::number_list(sets::ascending(f.vlans->0)),
                ","@,
            )
            &&& f.redundancy is Some ==> parts[a] == "redundancy="@ + text::joined(
                f.redundancy->0,
                ","@,
            )
            &&& f.appids is Some ==> parts[b] == "appid="@ + text::joined(
                filter::appid_list(sets::ascending(f.appids->0)),
                ","@,
            )
            &&& f.svids is Some ==> parts[c] == "id="@ + text::joined(f.svids->0, ","@)
        }),
        forall|s: Seq<u16>, i: int|
            0 <= i < s.len() ==> (#[trigger] filter::number_list(s)[i]) == text::dec(s[i] as nat),
        forall|s: Seq<u16>, i: int|
            0 <= i < s.len() ==> (#[trigger] filter::appid_list(s)[i]) == text::hex4(s[i]),
        f != filter::no_filter() ==> cli::note_on(f) == "filter "@ + text::joined(
            filter::summary_parts(f),
            " "@,
        ),
        cli::note_on(filter::no_filter()) == Seq::<char>::empty(),
{
}

/// The members of a set are listed in ascending order, each once.
pub proof fn law_sets_are_listed_in_order(s: Set<u16>)
    ensures
        ({
            let l = sets::ascending(s);
            &&& forall|i: int, j: int| 0 <= i < j < l.len() ==> l[i] < l[j]
            &&& forall|v: u16| #[trigger] l.contains(v) <==> s.contains(v)
        }),
{
    lemma_below(s, 65536);
}

proof fn lemma_below(s: Set<u16>, limit: nat)
    requires
        limit <= 65536,
    ensures
        ({
            let l = sets::below(s, limit);
            &&& forall|i: int, j: int| 0 <= i < j < l.len() ==> l[i] < l[j]
            &&& forall|v: u16| #[trigger] l.contains(v) <==> s.contains(v) && v < limit
        }),
    decreases limit,
{
    if limit > 0 {
        let n = (limit - 1) as nat;
        let l = sets::below(s, n);
        let m = sets::below(s, limit);
        let top = n as u16;
        lemma_below(s, n);
        assert forall|i: int| 0 <= i < l.len() implies l[i] < n by {
            assert(l.contains(l[i]));
        }
        assert forall|v: u16| #[trigger] m.contains(v) <==> s.contains(v) && v < limit by {
            assert(l.contains(v) <==> s.contains(v) && v < n);
            if m.contains(v) {
                let i = m.index_of(v);
                if i < l.len() {
                    assert(l[i] == v);
                }
            }
            if l.contains(v) {
                let i = l.index_of(v);
                assert(m[i] == v);
            }
            if v == top && s.contains(v) {
                assert(m[l.len() as int] == v);
            }
        }
    } else {
        assert(sets::below(s, 0) =~= Seq::empty());
    }
}

/// A progress bar of thirty places is filled from the left, and never beyond.
pub proof fn law_bars_fill_from_the_left(filled: nat, i: int)
    requires
        0 <= i < 30,
    ensures
        BAR_WIDTH == 30,
        cli::bar(filled).len() == 30,
        cli::bar(filled)[i] == (if i < filled {
            '#'
        } else {
            '.'
        }),
{
}

/// An interface is listed with its speed where it is known.
pub proof fn law_interfaces_are_listed_with_their_speed(i: iface::InterfaceView)
    ensures
        i.speed_mbps is None ==> cli::list_line(i) == "  "@ + iface::shown(i),
        i.speed_mbps is Some ==> cli::list_line(i) == "  "@ + iface::shown(i) + "  ["@ + text::dec(
            i.speed_mbps->0 as nat,
        ) + " Mb/s]"@,
{
}

/// A complaint about an interface names every one there is, one on a line.
pub proof fn law_every_interface_is_named(
    list: Seq<iface::InterfaceView>,
    i: iface::InterfaceView,
)
    ensures
        cli::named_lines(Seq::empty()) == Seq::<char>::empty(),
        cli::named_lines(list.push(i)) == cli::named_lines(list) + "\n  "@ + iface::shown(i),
{
    assert(list.push(i).drop_last() =~= list);
}

/// Where a speed came from is said of it.
pub proof fn law_speeds_tell_their_origin(mbps: u32)
    ensures
        cli::origin_words(SpeedOrigin::Given) == "as given"@,
        cli::origin_words(SpeedOrigin::Detected(mbps)) == "detected"@,
        cli::origin_words(SpeedOrigin::Assumed) == "assumed; set -s for this link"@,
{
}

// ---- Interfaces -------------------------------------------------------------------------------------

/// An interface is shown by its label with its id behind, or by its id alone
/// where the two are the same.
pub proof fn law_interfaces_are_shown_by_label(i: iface::InterfaceView)
    ensures
        i.label == i.id ==> iface::shown(i) == i.id,
        i.label != i.id ==> iface::shown(i) == i.label + " ("@ + i.id + ")"@,
{
}

/// Whether `k` is the first interface that is named in the given way.
pub open spec fn is_first(
    input: Seq<char>,
    list: Seq<iface::InterfaceView>,
    how: Naming,
    k: int,
) -> bool {
    &&& 0 <= k < list.len()
    &&& iface::names(input, list[k], how)
    &&& forall|j: int| 0 <= j < k ==> !iface::names(input, #[trigger] list[j], how)
}

/// Whether no interface is named in the given way.
pub open spec fn is_unnamed(
    input: Seq<char>,
    list: Seq<iface::InterfaceView>,
    how: Naming,
) -> bool {
    forall|j: int| 0 <= j < list.len() ==> !iface::names(input, #[trigger] list[j], how)
}

proof fn lemma_first_named(input: Seq<char>, list: Seq<iface::InterfaceView>, how: Naming)
    ensures
        match iface::first_named(input, list, how) {
            Some(k) => is_first(input, list, how, k),
            None => is_unnamed(input, list, how),
        },
    decreases list.len(),
{
    if list.len() > 0 {
        let front = list.drop_last();
        let n = list.len() - 1;
        lemma_first_named(input, front, how);
        assert(list[n] == list.last());
        match iface::first_named(input, front, how) {
            Some(k) => {
                assert(list[k] == front[k]);
                assert forall|j: int| 0 <= j < k implies !iface::names(
                    input,
                    #[trigger] list[j],
                    how,
                ) by {
                    assert(front[j] == list[j]);
                }
            },
            None => {
                assert forall|j: int| 0 <= j < n implies !iface::names(
                    input,
                    #[trigger] list[j],
                    how,
                ) by {
                    assert(front[j] == list[j]);
                }
            },
        }
    }
}

/// What is typed is looked up as an id, then as a label, then as it is shown, then
/// as a label in any letter case; each time the first match counts.
pub proof fn law_interfaces_are_looked_up_in_turn(
    input: Seq<char>,
    list: Seq<iface::InterfaceView>,
    k: int,
)
    ensures
        is_first(input, list, Naming::Id, k) ==> iface::resolved(input, list) == Some(k),
        is_unnamed(input, list, Naming::Id) && is_first(input, list, Naming::Label, k)
            ==> iface::resolved(input, list) == Some(k),
        is_unnamed(input, list, Naming::Id) && is_unnamed(input, list, Naming::Label) && is_first(
            input,
            list,
            Naming::Shown,
            k,
        ) ==> iface::resolved(input, list) == Some(k),
        is_unnamed(input, list, Naming::Id) && is_unnamed(input, list, Naming::Label)
            && is_unnamed(input, list, Naming::Shown) && is_first(
            input,
            list,
            Naming::LabelAnyCase,
            k,
        ) ==> iface::resolved(input, list) == Some(k),
        forall|i: iface::InterfaceView| #[trigger]
            iface::names(input, i, Naming::Id) <==> i.id == input,
        forall|i: iface::InterfaceView| #[trigger]
            iface::names(input, i, Naming::Label) <==> i.label == input,
        forall|i: iface::InterfaceView| #[trigger]
            iface::names(input, i, Naming::Shown) <==> iface::shown(i) == input,
        forall|i: iface::InterfaceView| #[trigger]
            iface::names(input, i, Naming::LabelAnyCase) <==> text::ascii_upper(i.label)
                == text::ascii_upper(input),
{
    lemma_first_named(input, list, Naming::Id);
    lemma_first_named(input, list, Naming::Label);
    lemma_first_named(input, list, Naming::Shown);
    lemma_first_named(input, list, Naming::LabelAnyCase);
    lemma_one_first(input, list, Naming::Id, k);
    lemma_one_first(input, list, Naming::Label, k);
    lemma_one_first(input, list, Naming::Shown, k);
    lemma_one_first(input, list, Naming::LabelAnyCase, k);
}

proof fn lemma_one_first(
    input: Seq<char>,
    list: Seq<iface::InterfaceView>,
    how: Naming,
    k: int,
)
    ensures
        forall|m: int|
            #[trigger] is_first(input, list, how, m) && is_first(input, list, how, k) ==> m == k,
        is_first(input, list, how, k) ==> !is_unnamed(input, list, how),
{
    assert forall|m: int|
        #[trigger] is_first(input, list, how, m) && is_first(input, list, how, k) implies m
        == k by {
        if m < k {
            assert(!iface::names(input, list[m], how));
        } else if k < m {
            assert(!iface::names(input, list[k], how));
        }
    }
}

/// The system's word on a speed counts where it is a positive number of megabits;
/// zero and minus one say that there is none.
pub proof fn law_reported_speeds_are_positive(n: nat, before: nat, after: nat)
    requires
        n < 0x1_0000_0000,
    ensures
        n > 0 ==> iface::reported_speed(text_laws::spaced(text::dec(n), before, after)) == Some(
            n as u32,
        ),
        iface::reported_speed(text::dec(0)) is None,
        iface::reported_speed("-1"@) is None,
{
    text_laws::law_decimals_read_back(n, i64::MAX as nat);
    text_laws::law_decimals_read_back(0, i64::MAX as nat);
    lemma_decimal_is_item(n);
    lemma_decimal_is_item(0);
    text_laws::law_spaces_are_trimmed(text::dec(n), before, after);
    text_laws::law_spaces_are_trimmed(text::dec(0), 0, 0);
    assert(text_laws::spaced(text::dec(0), 0, 0) =~= text::dec(0));
    reveal_strlit("-1");
    let s = "-1"@;
    assert(text_laws::is_item(s));
    text_laws::law_spaces_are_trimmed(s, 0, 0);
    assert(text_laws::spaced(s, 0, 0) =~= s);
    assert(s.drop_last() =~= seq!['-']);
    text_laws::law_digits_are_read_one_by_one(Seq::empty(), '-', 10);
    assert(Seq::<char>::empty().push('-') =~= seq!['-']);
    assert('-' as int == 45 && '+' as int == 43);
    assert(text::digits_value(seq!['-'], 10) is None);
}

proof fn lemma_decimal_is_item(n: nat)
    ensures
        text_laws::is_item(text::dec(n)),
    decreases n,
{
    let s = text::dec(n);
    if n < 10 {
        lemma_digit_is_plain(n);
        assert(s =~= seq![text::digit(n)]);
    } else {
        let q = (n / 10) as nat;
        let r = (n % 10) as nat;
        lemma_decimal_is_item(q);
        lemma_digit_is_plain(r);
        let t = text::dec(q);
        assert(s == t.push(text::digit(r)));
        assert(s[0] == t[0]);
        assert(!s.contains(',')) by {
            if s.contains(',') {
                let i = s.index_of(',');
                if i < t.len() {
                    assert(t[i] == ',');
                }
            }
        }
    }
}

proof fn lemma_digit_is_plain(d: nat)
    requires
        d < 10,
    ensures
        !text::is_space(text::digit(d)),
        text::digit(d) != ',',
{
    text_laws::law_decimals_are_digits(0, d);
    assert(text::dec(d)[0] == text::digit(d));
    assert(',' as int == 44);
}

/// An adapter's speed is its bits per second in whole megabits, where these are
/// between one and 400000.
pub proof fn law_adapter_speeds_are_megabits(mbps: nat, rest: nat)
    requires
        rest < 1_000_000,
        mbps * 1_000_000 + rest < u64::MAX,
    ensures
        iface::mbps_of((mbps * 1_000_000 + rest) as u64) == (if 1 <= mbps <= 400_000 {
            Some(mbps as u32)
        } else {
            None
        }),
        iface::mbps_of(u64::MAX) is None,
{
    assert((mbps * 1_000_000 + rest) / 1_000_000 == mbps);
}

/// An interface has the speed of the first adapter whose identifier is part of its
/// own, in any letter case; without such an adapter it keeps its speed.
pub proof fn law_interfaces_take_their_adapters_speed(
    i: iface::InterfaceView,
    adapters: Seq<Adapter>,
    k: int,
)
    ensures
        (forall|j: int| 0 <= j < adapters.len() ==> !iface::carries(i.id, #[trigger] adapters[j]))
            ==> iface::with_speed(i, adapters).speed_mbps == i.speed_mbps,
        0 <= k < adapters.len() && iface::carries(i.id, adapters[k]) && (forall|j: int|
            0 <= j < k ==> !iface::carries(i.id, #[trigger] adapters[j])) ==> iface::with_speed(
            i,
            adapters,
        ).speed_mbps == adapters[k].speed_mbps,
        iface::with_speed(i, adapters).id == i.id,
        iface::with_speed(i, adapters).label == i.label,
        forall|a: Adapter| #[trigger]
            iface::carries(i.id, a) <==> a.guid@.len() > 0 && exists|at: int|
                0 <= at && at + a.guid@.len() <= i.id.len() && #[trigger] text::ascii_upper(
                    i.id,
                ).subrange(at, at + a.guid@.len()) == a.guid@,
    decreases adapters.len(),
{
    assert forall|a: Adapter| #[trigger]
        iface::carries(i.id, a) <==> a.guid@.len() > 0 && exists|at: int|
            0 <= at && at + a.guid@.len() <= i.id.len() && #[trigger] text::ascii_upper(
                i.id,
            ).subrange(at, at + a.guid@.len()) == a.guid@ by {
        let u = text::ascii_upper(i.id);
        if text::holds(u, a.guid@) {
            let at = choose|at: int| text::stands_at(u, a.guid@, at);
            assert(u.subrange(at, at + a.guid@.len()) == a.guid@);
        }
        if exists|at: int|
            0 <= at && at + a.guid@.len() <= i.id.len() && #[trigger] u.subrange(
                at,
                at + a.guid@.len(),
            ) == a.guid@ {
            let at = choose|at: int|
                0 <= at && at + a.guid@.len() <= i.id.len() && #[trigger] u.subrange(
                    at,
                    at + a.guid@.len(),
                ) == a.guid@;
            assert(text::stands_at(u, a.guid@, at));
        }
    }
    if adapters.len() > 0 {
        let rest = adapters.skip(1);
        law_interfaces_take_their_adapters_speed(i, rest, k - 1);
        if forall|j: int|
            0 <= j < adapters.len() ==> !iface::carries(i.id, #[trigger] adapters[j]) {
            assert(!iface::carries(i.id, adapters[0]));
            assert forall|j: int| 0 <= j < rest.len() implies !iface::carries(
                i.id,
                #[trigger] rest[j],
            ) by {
                assert(rest[j] == adapters[j + 1]);
            }
        }
        if 0 < k < adapters.len() && iface::carries(i.id, adapters[k]) && (forall|j: int|
            0 <= j < k ==> !iface::carries(i.id, #[trigger] adapters[j])) {
            assert(!iface::carries(i.id, adapters[0]));
            assert(rest[k - 1] == adapters[k]);
            assert forall|j: int| 0 <= j < k - 1 implies !iface::carries(
                i.id,
                #[trigger] rest[j],
            ) by {
                assert(rest[j] == adapters[j + 1]);
            }
        }
    }
}

/// An adapter stands in as an interface: its device name, and its friendly name
/// or without one its identifier.
pub proof fn law_adapters_stand_in_as_interfaces(a: Adapter)
    ensures
        ({
            let i = iface::adapter_interface(a);
            &&& i.id == "\\Device\\NPF_"@ + a.guid@
            &&& a.friendly_name@.len() > 0 ==> i.label == a.friendly_name@
            &&& a.friendly_name@.len() == 0 ==> i.label == a.guid@
            &&& i.speed_mbps == a.speed_mbps
        }),
{
}

/// A listing comes first, with the adapters' speeds; where it is empty or missing
/// the adapters themselves are the interfaces.
pub proof fn law_adapters_fill_in_for_a_listing(
    listed: Option<Seq<char>>,
    adapters: Seq<Adapter>,
)
    ensures
        ({
            let list = match listed {
                Some(out) => iface::listing(text::fields(out, '\n')),
                None => Seq::empty(),
            };
            let with = iface::dumpcap_list(listed, Some(adapters));
            &&& iface::dumpcap_list(listed, None) == list
            &&& list.len() > 0 ==> with.len() == list.len() && forall|i: int|
                0 <= i < list.len() ==> (#[trigger] with[i]) == iface::with_speed(list[i], adapters)
            &&& list.len() == 0 ==> with.len() == adapters.len() && forall|i: int|
                0 <= i < adapters.len() ==> (#[trigger] with[i]) == iface::adapter_interface(
                    adapters[i],
                )
        }),
{
}

/// A listing has an interface for each of its lines that names one.
pub proof fn law_a_listing_has_its_lines(lines: Seq<Seq<char>>, line: Seq<char>)
    ensures
        iface::listing(Seq::empty()) == Seq::<iface::InterfaceView>::empty(),
        match iface::listing_line(line) {
            Some(i) => iface::listing(lines.push(line)) == iface::listing(lines).push(i),
            None => iface::listing(lines.push(line)) == iface::listing(lines),
        },
{
    assert(lines.push(line).drop_last() =~= lines);
}

/// Interfaces of the system stand in the order of their names.
pub proof fn law_system_interfaces_stand_by_name(l: Seq<iface::InterfaceView>, i: int, j: int)
    requires
        0 <= i < j < iface::by_id(l).len(),
    ensures
        ({
            let a = order::codes(iface::by_id(l)[i].id);
            let b = order::codes(iface::by_id(l)[j].id);
            a == b || text_laws::lexically_before(a, b)
        }),
{
    iface::law_interfaces_are_sorted(l);
    let s = iface::by_id(l);
    assert(order::text_rank(s[i].id, s[j].id) != Rank::After);
    text_laws::law_ranks_are_lexical(order::codes(s[i].id), order::codes(s[j].id));
}

// ---- The export --------------------------------------------------------------------------------------

/// A table is exported with its headings, and then a line for each row in order:
/// its cells with commas between them.
pub proof fn law_the_export_has_a_line_for_each_row(
    rows: Seq<report::RowView>,
    row: report::RowView,
)
    ensures
        export::csv_text(Seq::empty()) == text::joined(export::headings(), ","@) + seq!['\n'],
        export::csv_text(rows.push(row)) == export::csv_text(rows) + text::joined(
            export::escaped_cells(row.cells),
            ","@,
        ) + seq!['\n'],
        export::headings().len() == 11,
        forall|c: int| 0 <= c < 11 ==> (#[trigger] export::headings()[c]) == COLUMNS@[c]@,
        export::escaped_cells(row.cells).len() == row.cells.len(),
        forall|c: int|
            0 <= c < row.cells.len() ==> (#[trigger] export::escaped_cells(row.cells)[c])
                == export::escaped(row.cells[c]),
{
    assert(rows.push(row).drop_last() =~= rows);
    let head = text::joined(export::headings(), ","@) + seq!['\n'];
    let line = text::joined(export::escaped_cells(row.cells), ","@);
    assert(export::csv_text(Seq::empty()) =~= head);
    assert(export::csv_text(rows.push(row)) =~= export::csv_text(rows) + line + seq!['\n']);
}

/// A cell is quoted exactly if it holds a comma, a quote or a line break; then it
/// stands between quotes, and each quote in it is doubled.
pub proof fn law_cells_are_quoted_where_needed(s: Seq<char>, c: char)
    ensures
        !s.contains(',') && !s.contains('"') && !s.contains('\n') ==> export::escaped(s) == s,
        s.contains(',') || s.contains('"') || s.contains('\n') ==> export::escaped(s) == seq!['"']
            + export::doubled(s) + seq!['"'],
        export::doubled(Seq::empty()) == Seq::<char>::empty(),
        export::doubled(s.push(c)) == (if c == '"' {
            export::doubled(s) + seq!['"', '"']
        } else {
            export::doubled(s) + seq![c]
        }),
{
    assert(s.push(c).drop_last() =~= s);
    let d = export::doubled(s);
    assert(d.push('"').push('"') =~= d + seq!['"', '"']);
    assert(d.push(c) =~= d + seq![c]);
}

/// Days are counted from the first of January 1970, each date one behind the one
/// before it: within a month, at the end of a month, and at the end of a year.
pub proof fn law_days_follow_each_other(y: int, m: int, d: int)
    requires
        export::is_date(y, m, d),
    ensures
        export::day_number(1970, 1, 1) == 0,
        d < export::month_len(y, m) ==> export::day_number(y, m, d + 1) == export::day_number(
            y,
            m,
            d,
        ) + 1,
        d == export::month_len(y, m) && m < 12 ==> export::day_number(y, m + 1, 1)
            == export::day_number(y, m, d) + 1,
        d == export::month_len(y, m) && m == 12 ==> export::day_number(y + 1, 1, 1)
            == export::day_number(y, m, d) + 1,
{
    export::law_years_follow_each_other(y);
    assert(export::month_start(y, m + 1) == export::month_start(y, m) + export::month_len(y, m));
}

/// Months have 31 days but for April, June, September and November with 30, and
/// February with 28, or 29 in a leap year: every fourth, of the full centuries
/// only every fourth.
pub proof fn law_months_have_their_length(y: int, m: int)
    requires
        1 <= m <= 12,
    ensures
        m == 1 || m == 3 || m == 5 || m == 7 || m == 8 || m == 10 || m == 12 ==> export::month_len(
            y,
            m,
        ) == 31,
        m == 4 || m == 6 || m == 9 || m == 11 ==> export::month_len(y, m) == 30,
        m == 2 && y % 4 != 0 ==> export::month_len(y, m) == 28,
        m == 2 && y % 4 == 0 && y % 100 != 0 ==> export::month_len(y, m) == 29,
        m == 2 && y % 100 == 0 && y % 400 != 0 ==> export::month_len(y, m) == 28,
        m == 2 && y % 400 == 0 ==> export::month_len(y, m) == 29,
{
}

/// A moment reads as its date and its time of day: four digits of year, and two of
/// month, day, hour, minute and second.
pub proof fn law_moments_read_as_date_and_time(
    r: Seq<char>,
    y: int,
    m: int,
    d: int,
    hour: nat,
    minute: nat,
    second: nat,
)
    requires
        y >= 0,
        export::is_date(y, m, d),
        export::day_number(y, m, d) >= 0,
        hour < 24,
        minute < 60,
        second < 60,
        export::is_timestamp(
            r,
            (86_400 * export::day_number(y, m, d) + 3600 * hour + 60 * minute + second) as nat,
        ),
    ensures
        r == text::zero_filled(text::dec(y as nat), 4) + text::dec2(m as nat) + text::dec2(d as nat)
            + "_"@ + text::dec2(hour) + text::dec2(minute) + text::dec2(second),
{
    let n = export::day_number(y, m, d);
    let day = 3600 * hour + 60 * minute + second;
    let t = (86_400 * n + day) as nat;
    assert(t / 86_400 == n && t % 86_400 == day);
    assert(day / 3600 == hour && day % 3600 == 60 * minute + second);
    assert((60 * minute + second) / 60 == minute && day % 60 == second);
    let (a, b, c) = choose|a: int, b: int, c: int|
        {
            &&& a >= 0
            &&& #[trigger] export::is_date(a, b, c)
            &&& export::day_number(a, b, c) == t / 86_400
            &&& r == text::zero_filled(text::dec(a as nat), 4) + text::dec2(b as nat) + text::dec2(
                c as nat,
            ) + "_"@ + export::clock(t % 86_400)
        };
    export::law_a_day_has_one_date(y, m, d, a, b, c);
    let front = text::zero_filled(text::dec(y as nat), 4) + text::dec2(m as nat) + text::dec2(
        d as nat,
    ) + "_"@;
    assert(r =~= front + text::dec2(hour) + text::dec2(minute) + text::dec2(second));
}

// ---- The window --------------------------------------------------------------------------------------

/// Opening a dropdown offers the values seen in its column, in order, each checked
/// exactly if the filter lets it through.
pub proof fn law_a_dropdown_offers_what_was_seen(
    values: Seq<Seq<char>>,
    f: Map<usize, Seq<Seq<char>>>,
    col: usize,
)
    ensures
        ({
            let choices = filter_popup::choices_of(values, f, col);
            &&& choices.len() == values.len()
            &&& forall|i: int|
                0 <= i < values.len() ==> (#[trigger] choices[i]).0 == values[i] && (choices[i].1
                    <==> !f.contains_key(col) || f[col].contains(values[i]))
        }),
{
}

/// Applying a dropdown lets exactly the checked values through, and lifts the
/// filter where all are checked.
pub proof fn law_applying_lets_the_checked_values_through(
    after: Map<usize, Seq<Seq<char>>>,
    before: Map<usize, Seq<Seq<char>>>,
    col: usize,
    choices: Seq<(Seq<char>, bool)>,
    v: Seq<char>,
)
    requires
        filter_popup::is_applied(after, before, col, choices),
        exists|i: int| 0 <= i < choices.len() && !(#[trigger] choices[i]).1,
    ensures
        after.contains_key(col),
        after[col].contains(v) <==> exists|i: int|
            0 <= i < choices.len() && #[trigger] choices[i] == (v, true),
{
    assert(after[col].to_set().contains(v) <==> after[col].contains(v));
    assert(filter_popup::checked(choices).contains(v) <==> exists|i: int|
        0 <= i < choices.len() && #[trigger] choices[i] == (v, true));
}

/// A running capture is shown, its window closed once a second; it is asked to stop
/// when its time is up; a stopping one is waited for, five seconds at most; and
/// without a capture there is nothing to do.
pub proof fn law_a_capture_goes_its_way(s: CaptureState)
    ensures
        DRAIN_NS == 5_000_000_000,
        !s.capturing ==> monitor::tick_of(s) == Tick::Nothing,
        s.capturing && s.stopping_ns is None && !s.time_up && s.running ==> monitor::tick_of(s) == (
        Tick::Show { rotate: s.since_rotate_ns >= 1_000_000_000 }),
        s.capturing && s.stopping_ns is None && s.time_up ==> monitor::tick_of(s)
            == Tick::RequestStop,
        s.capturing && s.stopping_ns is None && !s.time_up && !s.running ==> monitor::tick_of(s)
            == Tick::Finish,
        s.capturing && s.stopping_ns is Some && s.running && s.stopping_ns->0 <= 5_000_000_000
            ==> monitor::tick_of(s) == Tick::Wait,
        s.capturing && s.stopping_ns is Some && (!s.running || s.stopping_ns->0 > 5_000_000_000)
            ==> monitor::tick_of(s) == Tick::Finish,
{
}

/// In the window, sums and idle rows are weak and the total is strong; else
/// simulation alarms, and so does a critical load, where one that warrants a
/// warning cautions.
pub proof fn law_cells_look_as_they_mean(row: report::RowView, col: int)
    ensures
        ({
            let look = monitor::look_of(row, col);
            match row.kind {
                RowKind::Subtotal | RowKind::Idle => look == CellLook::Weak,
                RowKind::Total => look == CellLook::Strong,
                RowKind::Detail | RowKind::Other => look == (if col == 8 && row.sim || col == 10
                    && row.level == LoadLevel::Critical {
                    CellLook::Alarm
                } else if col == 10 && row.level == LoadLevel::Warn {
                    CellLook::Caution
                } else {
                    CellLook::Plain
                }),
            }
        }),
{
}

/// The first interface with a known speed is preferred, and the first of all where
/// there is none.
pub proof fn law_a_known_speed_is_preferred(list: Seq<iface::InterfaceView>, i: int)
    requires
        monitor::is_preferred(list, i),
    ensures
        (exists|j: int| 0 <= j < list.len() && (#[trigger] list[j]).speed_mbps is Some) ==> 0 <= i
            < list.len() && list[i].speed_mbps is Some && forall|j: int|
            0 <= j < i ==> (#[trigger] list[j]).speed_mbps is None,
        (forall|j: int| 0 <= j < list.len() ==> (#[trigger] list[j]).speed_mbps is None) ==> i == 0,
{
}

/// The system's interfaces are named by the system, with the speed it reports.
pub proof fn law_system_interfaces_are_named_by_the_system(e: (String, Option<String>))
    ensures
        ({
            let i = iface::system_interface(e);
            &&& i.id == e.0@
            &&& i.label == e.0@
            &&& e.1 is None ==> i.speed_mbps is None
            &&& e.1 is Some ==> i.speed_mbps == iface::reported_speed(e.1->0@)
        }),
{
}

/// Texts are kept in the order of a lexicon, each once.
pub proof fn law_texts_are_kept_in_order(l: Seq<Seq<char>>, i: int, j: int)
    requires
        sets::ordered(l),
        0 <= i < j < l.len(),
    ensures
        text_laws::lexically_before(order::codes(l[i]), order::codes(l[j])),
        l[i] != l[j],
{
    assert(order::text_rank(l[i], l[j]) == Rank::Before);
    text_laws::law_ranks_are_lexical(order::codes(l[i]), order::codes(l[j]));
}

/// A flag that was not given asks for nothing, and one that was for what is in it.
pub proof fn law_missing_flags_ask_for_nothing(
    flag: String,
    read: spec_fn(Seq<char>) -> Option<nat>,
    change: spec_fn(Seq<char>) -> Seq<char>,
)
    ensures
        cli::numbers_of(None, read) is None,
        cli::numbers_of(Some(flag), read) == Some(
            filter::numbers_in(text::list_items(flag@), read),
        ),
        cli::texts_of(None, change) == Set::<Seq<char>>::empty(),
        cli::texts_of(Some(flag), change) == filter::changed(
            text::list_items(flag@),
            change,
        ).to_set(),
{
}

/// The values on offer in a column are those that were seen in it: none where none
/// was seen.
pub proof fn law_seen_values_are_on_offer(seen: Map<usize, sets::TextSet>, col: usize)
    ensures
        !seen.contains_key(col) ==> filter_popup::values_of(seen, col).len() == 0,
        seen.contains_key(col) ==> filter_popup::values_of(seen, col) == seen[col]@,
{
}

/// What the system reports is listed by name, each interface once for each time that
/// it is reported.
pub proof fn law_reported_names_are_listed_in_order(
    entries: Vec<(String, Option<String>)>,
    i: int,
    j: int,
)
    requires
        0 <= i < j < entries@.len(),
    ensures
        ({
            let l = iface::interfaces_in(iface::Reported::Names(entries));
            let a = order::codes(l[i].id);
            let b = order::codes(l[j].id);
            &&& l.len() == entries@.len()
            &&& l.to_multiset() == iface::system_interfaces(entries@).to_multiset()
            &&& a == b || text_laws::lexically_before(a, b)
        }),
{
    let l = iface::system_interfaces(entries@);
    iface::law_interfaces_are_sorted(l);
    law_system_interfaces_stand_by_name(l, i, j);
}

} // verus!
