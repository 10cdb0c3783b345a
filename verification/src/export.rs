//! Exporting the table: the file's content, and its name.
use crate::report;
use crate::report::{Report, COLUMNS, N_COLUMNS};
use crate::text;
use crate::text::{chars_of, join_strings, push_dec_padded};
use vstd::prelude::*;

verus! {

broadcast use text::lemma_texts_push;

// ---- Content -------------------------------------------------------------------------------

/// A text with every quotation mark doubled.
pub open spec fn doubled(s: Seq<char>) -> Seq<char>
    decreases s.len(),
{
    if s.len() == 0 {
        s
    } else {
        let front = doubled(s.drop_last());
        if s.last() == '"' {
            front.push('"').push('"')
        } else {
            front.push(s.last())
        }
    }
}

/// Whether a cell has to stand in quotation marks.
pub open spec fn needs_quotes(s: Seq<char>) -> bool {
    s.contains(',') || s.contains('"') || s.contains('\n')
}

/// A cell as it stands in the file.
pub open spec fn escaped(s: Seq<char>) -> Seq<char> {
    if needs_quotes(s) {
        seq!['"'] + doubled(s) + seq!['"']
    } else {
        s
    }
}

/// A cell as it stands in the file: quoted only where it has to be.
pub fn csv_escape(s: &str) -> (r: String)
    ensures
        r@ == escaped(s@),
{
    let cs: Vec<char> = chars_of(s);
    let mut quotes: bool = false;
    let mut body: String = String::new();
    let mut i: usize = 0;
    assert(body@ =~= doubled(cs@.take(0)));
    while i < cs.len()
        invariant
            i <= cs@.len(),
            body@ == doubled(cs@.take(i as int)),
            quotes <==> exists|j: int|
                0 <= j < i && (cs@[j] == ',' || cs@[j] == '"' || cs@[j] == '\n'),
        decreases cs@.len() - i,
    {
        let c: char = cs[i];
        assert(cs@.take(i + 1).drop_last() =~= cs@.take(i as int));
        if c == ',' || c == '"' || c == '\n' {
            quotes = true;
        }
        if c == '"' {
            body.push('"');
        }
        body.push(c);
        i += 1;
    }
    assert(cs@.take(i as int) =~= s@);
    proof {
        if quotes {
            let j = choose|j: int|
                0 <= j < i && (cs@[j] == ',' || cs@[j] == '"' || cs@[j] == '\n');
            assert(s@.contains(cs@[j]));
        }
        if needs_quotes(s@) {
            let c = if s@.contains(',') {
                ','
            } else if s@.contains('"') {
                '"'
            } else {
                '\n'
            };
            let j = s@.index_of(c);
            assert(cs@[j] == c);
        }
    }
    if quotes {
        let mut out: String = String::new();
        out.push('"');
        out.append(body.as_str());
        out.push('"');
        assert(out@ =~= escaped(s@));
        out
    } else {
        s.to_owned()
    }
}

/// The cells of a row as they stand in the file.
pub open spec fn escaped_cells(cells: Seq<Seq<char>>) -> Seq<Seq<char>> {
    Seq::new(cells.len(), |i: int| escaped(cells[i]))
}

/// The headings.
pub open spec fn headings() -> Seq<Seq<char>> {
    Seq::new(N_COLUMNS as nat, |i: int| COLUMNS@[i]@)
}

/// The rows of the file, each with its line end.
pub open spec fn csv_rows(rows: Seq<report::RowView>) -> Seq<char>
    decreases rows.len(),
{
    if rows.len() == 0 {
        Seq::empty()
    } else {
        csv_rows(rows.drop_last()) + text::joined(escaped_cells(rows.last().cells), ","@) + seq![
            '\n',
        ]
    }
}

/// The content of the file.
pub open spec fn csv_text(rows: Seq<report::RowView>) -> Seq<char> {
    text::joined(headings(), ","@) + seq!['\n'] + csv_rows(rows)
}

/// A report as it is exported: exactly the rows on screen, so the file matches
/// what was seen.
pub fn to_csv(r: &Report) -> (out: String)
    ensures
        out@ == csv_text(report::rows_view(r.rows@)),
{
    let mut heads: Vec<String> = Vec::new();
    let mut c: usize = 0;
    assert(text::texts(heads@) =~= headings().take(0));
    while c < N_COLUMNS
        invariant
            c <= N_COLUMNS,
            text::texts(heads@) == headings().take(c as int),
        decreases N_COLUMNS - c,
    {
        heads.push(COLUMNS[c].to_owned());
        assert(headings().take(c + 1) =~= headings().take(c as int).push(headings()[c as int]));
        c += 1;
    }
    assert(headings().take(c as int) =~= headings());
    let mut out: String = join_strings(&heads, ",");
    out.push('\n');
    let ghost head = out@;
    let ghost all = report::rows_view(r.rows@);
    let mut i: usize = 0;
    assert(out@ =~= head + csv_rows(all.take(0)));
    while i < r.rows.len()
        invariant
            i <= r.rows@.len(),
            all == report::rows_view(r.rows@),
            out@ == head + csv_rows(all.take(i as int)),
        decreases r.rows@.len() - i,
    {
        let ghost wanted = escaped_cells(all[i as int].cells);
        let mut cells: Vec<String> = Vec::new();
        let mut k: usize = 0;
        assert(text::texts(cells@) =~= wanted.take(0));
        while k < N_COLUMNS
            invariant
                k <= N_COLUMNS,
                i < r.rows@.len(),
                all == report::rows_view(r.rows@),
                wanted == escaped_cells(all[i as int].cells),
                wanted.len() == N_COLUMNS,
                text::texts(cells@) == wanted.take(k as int),
            decreases N_COLUMNS - k,
        {
            cells.push(csv_escape(r.rows[i].cells[k].as_str()));
            assert(wanted.take(k + 1) =~= wanted.take(k as int).push(wanted[k as int]));
            k += 1;
        }
        assert(wanted.take(k as int) =~= wanted);
        out.append(join_strings(&cells, ",").as_str());
        out.push('\n');
        assert(all.take(i + 1).drop_last() =~= all.take(i as int));
        assert(out@ =~= head + csv_rows(all.take(i + 1)));
        i += 1;
    }
    assert(all.take(i as int) =~= all);
    out
}

/// A text with every doubled quotation mark made single again.
pub open spec fn undoubled(s: Seq<char>) -> Seq<char>
    decreases s.len(),
{
    if s.len() == 0 {
        s
    } else if s.len() >= 2 && s.last() == '"' && s[s.len() - 2] == '"' {
        undoubled(s.take(s.len() - 2)).push('"')
    } else {
        undoubled(s.drop_last()).push(s.last())
    }
}

/// The cell that a text in the file stands for.
pub open spec fn unescaped(s: Seq<char>) -> Seq<char> {
    if s.len() >= 2 && s[0] == '"' {
        undoubled(s.subrange(1, s.len() - 1))
    } else {
        s
    }
}

proof fn lemma_undoubled(s: Seq<char>)
    ensures
        undoubled(doubled(s)) == s,
    decreases s.len(),
{
    if s.len() > 0 {
        let front = s.drop_last();
        let d = doubled(s);
        lemma_undoubled(front);
        assert(s =~= front.push(s.last()));
        if s.last() == '"' {
            assert(d.take(d.len() - 2) =~= doubled(front));
        } else {
            assert(d.drop_last() =~= doubled(front));
        }
    }
}

/// Every cell can be read back from the file.
pub proof fn law_a_cell_reads_back(s: Seq<char>)
    ensures
        unescaped(escaped(s)) == s,
{
    if needs_quotes(s) {
        let e = escaped(s);
        assert(e.subrange(1, e.len() - 1) =~= doubled(s));
        lemma_undoubled(s);
    } else if s.len() >= 2 && s[0] == '"' {
        assert(s.contains('"'));
    }
}

/// A cell that needs no quotation marks stands in the file as it is.
pub proof fn law_only_what_needs_it_is_quoted(s: Seq<char>)
    ensures
        !needs_quotes(s) ==> escaped(s) == s,
        needs_quotes(s) ==> escaped(s).len() >= s.len() + 2,
{
    lemma_doubled_len(s);
}

proof fn lemma_doubled_len(s: Seq<char>)
    ensures
        doubled(s).len() >= s.len(),
    decreases s.len(),
{
    if s.len() > 0 {
        lemma_doubled_len(s.drop_last());
    }
}

// ---- Dates ---------------------------------------------------------------------------------

/// Whether a year is a leap year.
pub open spec fn leap(y: int) -> bool {
    y % 4 == 0 && (y % 100 != 0 || y % 400 == 0)
}

/// The length of a month.
pub open spec fn month_len(y: int, m: int) -> int {
    if m == 2 {
        if leap(y) {
            29
        } else {
            28
        }
    } else if m == 4 || m == 6 || m == 9 || m == 11 {
        30
    } else {
        31
    }
}

/// Whether a date is one of the calendar's.
pub open spec fn is_date(y: int, m: int, d: int) -> bool {
    1 <= m <= 12 && 1 <= d <= month_len(y, m)
}

/// The days from the Unix epoch to the start of a year.
pub open spec fn year_start(y: int) -> int {
    365 * (y - 1970) + (y - 1) / 4 - (y - 1) / 100 + (y - 1) / 400 - 477
}

/// The days of a year before a month.
pub open spec fn month_start(y: int, m: int) -> int
    decreases m,
{
    if m <= 1 {
        0
    } else {
        month_start(y, m - 1) + month_len(y, m - 1)
    }
}

/// The days from the Unix epoch to a date.
pub open spec fn day_number(y: int, m: int, d: int) -> int {
    year_start(y) + month_start(y, m) + d - 1
}

/// A year starts where the one before it ends, and the count starts with 1970.
pub proof fn law_years_follow_each_other(y: int)
    ensures
        year_start(1970) == 0,
        year_start(y + 1) == year_start(y) + 337 + month_len(y, 2),
        month_start(y, 13) == 337 + month_len(y, 2),
{
    reveal_with_fuel(month_start, 13);
}

proof fn lemma_month_starts(y: int)
    ensures
        month_start(y, 1) == 0,
        month_start(y, 2) == 31,
        month_start(y, 3) == 31 + month_len(y, 2),
        month_start(y, 4) == 62 + month_len(y, 2),
        month_start(y, 5) == 92 + month_len(y, 2),
        month_start(y, 6) == 123 + month_len(y, 2),
        month_start(y, 7) == 153 + month_len(y, 2),
        month_start(y, 8) == 184 + month_len(y, 2),
        month_start(y, 9) == 215 + month_len(y, 2),
        month_start(y, 10) == 245 + month_len(y, 2),
        month_start(y, 11) == 276 + month_len(y, 2),
        month_start(y, 12) == 306 + month_len(y, 2),
        month_start(y, 13) == 337 + month_len(y, 2),
{
    reveal_with_fuel(month_start, 13);
}

/// The year and the day within it for a day of a 400-year cycle that starts
/// with March.
proof fn lemma_year_of_era(doe: int)
    requires
        0 <= doe < 146_097,
    ensures
        ({
            let yoe = (doe - doe / 1460 + doe / 36524 - doe / 146_096) / 365;
            let doy = doe - (365 * yoe + yoe / 4 - yoe / 100);
            &&& 0 <= yoe < 400
            &&& 0 <= doy <= 365
            &&& doy == 365 ==> leap(yoe + 1)
        }),
{
}

/// Quotients step where a year is a multiple.
proof fn lemma_steps(y: int)
    ensures
        (y - 1) / 4 == y / 4 - (if y % 4 == 0 {
            1int
        } else {
            0
        }),
        (y - 1) / 100 == y / 100 - (if y % 100 == 0 {
            1int
        } else {
            0
        }),
        (y - 1) / 400 == y / 400 - (if y % 400 == 0 {
            1int
        } else {
            0
        }),
        y % 400 == 0 ==> y % 100 == 0,
        y % 100 == 0 ==> y % 4 == 0,
{
}

/// A year within its cycle.
proof fn lemma_cycle(era: int, yoe: int)
    requires
        0 <= yoe < 400,
    ensures
        (yoe + era * 400) / 4 == yoe / 4 + era * 100,
        (yoe + era * 400) / 100 == yoe / 100 + era * 4,
        (yoe + era * 400) / 400 == era,
        leap(yoe + 1) == leap(yoe + era * 400 + 1),
{
    vstd::arithmetic::div_mod::lemma_hoist_over_denominator(yoe, era * 100, 4);
    vstd::arithmetic::div_mod::lemma_hoist_over_denominator(yoe, era * 4, 100);
    vstd::arithmetic::div_mod::lemma_hoist_over_denominator(yoe, era, 400);
    vstd::arithmetic::div_mod::lemma_mod_multiples_vanish(era * 100, yoe + 1, 4);
    vstd::arithmetic::div_mod::lemma_mod_multiples_vanish(era * 4, yoe + 1, 100);
    vstd::arithmetic::div_mod::lemma_mod_multiples_vanish(era, yoe + 1, 400);
}

/// The first of March of a year.
proof fn lemma_first_of_march(y: int)
    ensures
        day_number(y, 3, 1) == 365 * y + y / 4 - y / 100 + y / 400 - 719_468,
        year_start(y + 1) == day_number(y, 3, 1) + 306,
{
    lemma_steps(y);
    lemma_month_starts(y);
    law_years_follow_each_other(y);
}

/// The first of March of a year, counted from the start of its cycle.
proof fn lemma_march(era: int, yoe: int)
    requires
        0 <= yoe < 400,
    ensures
        ({
            let y = yoe + era * 400;
            &&& day_number(y, 3, 1) == era * 146_097 + 365 * yoe + yoe / 4 - yoe / 100 - 719_468
            &&& year_start(y + 1) == day_number(y, 3, 1) + 306
            &&& leap(yoe + 1) == leap(y + 1)
        }),
{
    lemma_cycle(era, yoe);
    lemma_first_of_march(yoe + era * 400);
}

/// The month and the day for a day of a year that starts with March.
proof fn lemma_month_of_year(y: int, doy: int)
    requires
        0 <= doy <= 365,
        doy == 365 ==> leap(y + 1),
    ensures
        ({
            let mp = (5 * doy + 2) / 153;
            let d = doy - (153 * mp + 2) / 5 + 1;
            let m = if mp < 10 {
                mp + 3
            } else {
                mp - 9
            };
            let year = if m <= 2 {
                y + 1
            } else {
                y
            };
            &&& is_date(year, m, d)
            &&& m <= 2 ==> month_start(year, m) + d - 1 == doy - 306
            &&& m > 2 ==> month_start(year, m) + d - 1 == doy + 31 + month_len(y, 2)
        }),
{
    lemma_month_starts(y);
    lemma_month_starts(y + 1);
    let mp = (5 * doy + 2) / 153;
    assert(0 <= mp <= 11);
    assert(mp == 0 || mp == 1 || mp == 2 || mp == 3 || mp == 4 || mp == 5 || mp == 6 || mp == 7
        || mp == 8 || mp == 9 || mp == 10 || mp == 11);
}

/// The quotient and the remainder by the days of a 400-year cycle.
fn split_cycles(z: i64) -> (r: (i64, i64))
    ensures
        r.0 == z as int / 146_097,
        r.1 == z as int % 146_097,
{
    if z >= 0 {
        (z / 146_097, z % 146_097)
    } else {
        let back: i64 = -1 - z;
        let era: i64 = -1 - back / 146_097;
        (era, 146_096 - back % 146_097)
    }
}

/// Days since the Unix epoch to a calendar date.
pub fn civil_from_days(z: i64) -> (r: (i64, u32, u32))
    requires
        z <= i64::MAX - 719_468,
    ensures
        is_date(r.0 as int, r.1 as int, r.2 as int),
        day_number(r.0 as int, r.1 as int, r.2 as int) == z,
{
    let (era, doe) = split_cycles(z + 719_468);
    let yoe: i64 = (doe - doe / 1460 + doe / 36524 - doe / 146_096) / 365;
    proof {
        lemma_year_of_era(doe as int);
        lemma_march(era as int, yoe as int);
    }
    let y: i64 = yoe + era * 400;
    let doy: i64 = doe - (365 * yoe + yoe / 4 - yoe / 100);
    proof {
        lemma_month_of_year(y as int, doy as int);
        lemma_month_starts(y as int);
        assert(day_number(y as int, 3, 1) == z - doy);
    }
    let mp: i64 = (5 * doy + 2) / 153;
    let d: u32 = (doy - (153 * mp + 2) / 5 + 1) as u32;
    let m: u32 = if mp < 10 {
        (mp + 3) as u32
    } else {
        (mp - 9) as u32
    };
    let year: i64 = if m <= 2 {
        y + 1
    } else {
        y
    };
    (year, m, d)
}

proof fn lemma_years_ordered(a: int, b: int)
    requires
        a <= b,
    ensures
        year_start(a) <= year_start(b),
{
}

/// No two dates are the same day.
pub proof fn law_a_day_has_one_date(y: int, m: int, d: int, yy: int, mm: int, dd: int)
    requires
        is_date(y, m, d),
        is_date(yy, mm, dd),
        day_number(y, m, d) == day_number(yy, mm, dd),
    ensures
        (y, m, d) == (yy, mm, dd),
{
    lemma_month_starts(y);
    lemma_month_starts(yy);
    law_years_follow_each_other(y);
    law_years_follow_each_other(yy);
    if y < yy {
        lemma_years_ordered(y + 1, yy);
    } else if yy < y {
        lemma_years_ordered(yy + 1, y);
    }
}

/// A time of day, or any other count of seconds, as hours, minutes and seconds.
pub open spec fn clock(secs: nat) -> Seq<char> {
    text::dec2(secs / 3600) + text::dec2((secs % 3600) / 60) + text::dec2(secs % 60)
}

/// Whether `r` is a time after the Unix epoch as `YYYYMMDD_HHMMSS`.
pub open spec fn is_timestamp(r: Seq<char>, secs: nat) -> bool {
    exists|y: int, m: int, d: int|
        {
            &&& y >= 0
            &&& #[trigger] is_date(y, m, d)
            &&& day_number(y, m, d) == secs / 86_400
            &&& r == text::zero_filled(text::dec(y as nat), 4) + text::dec2(m as nat) + text::dec2(
                d as nat,
            ) + "_"@ + clock(secs % 86_400)
        }
}

/// A time after the Unix epoch as `YYYYMMDD_HHMMSS`, for default export
/// filenames.
pub fn timestamp(secs: u64) -> (r: String)
    ensures
        is_timestamp(r@, secs as nat),
{
    let days: u64 = secs / 86_400;
    let tod: u64 = secs % 86_400;
    let (y, m, d) = civil_from_days(days as i64);
    proof {
        if y < 1970 {
            lemma_month_starts(y as int);
            law_years_follow_each_other(y as int);
            lemma_years_ordered(y + 1, 1970);
        }
    }
    let mut out: String = String::new();
    push_dec_padded(&mut out, y as u64, 4);
    push_dec_padded(&mut out, m as u64, 2);
    push_dec_padded(&mut out, d as u64, 2);
    out.append("_");
    push_dec_padded(&mut out, tod / 3600, 2);
    push_dec_padded(&mut out, (tod % 3600) / 60, 2);
    push_dec_padded(&mut out, tod % 60, 2);
    proof {
        assert(is_date(y as int, m as int, d as int));
        assert(out@ =~= text::zero_filled(text::dec(y as nat), 4) + text::dec2(m as nat)
            + text::dec2(d as nat) + "_"@ + clock(tod as nat));
    }
    out
}

/// The default name of an export.
pub fn export_name(secs: u64) -> (r: String)
    ensures
        exists|t: Seq<char>|
            is_timestamp(t, secs as nat) && r@ == "network_monitor_"@ + t + ".csv"@,
{
    let t: String = timestamp(secs);
    let mut out: String = "network_monitor_".to_owned();
    out.append(t.as_str());
    out.append(".csv");
    assert(is_timestamp(t@, secs as nat));
    out
}

/// A timestamp has one shape up to the year 9999: eight digits, an underscore
/// and six digits.
pub proof fn law_timestamps_have_one_shape(r: Seq<char>, secs: nat)
    requires
        is_timestamp(r, secs),
        secs < 253_402_300_800,
    ensures
        r.len() == 15,
        r[8] == '_',
        forall|i: int| 0 <= i < 15 && i != 8 ==> '0' <= #[trigger] r[i] <= '9',
{
    let (y, m, d) = choose|y: int, m: int, d: int|
        {
            &&& y >= 0
            &&& #[trigger] is_date(y, m, d)
            &&& day_number(y, m, d) == secs / 86_400
            &&& r == text::zero_filled(text::dec(y as nat), 4) + text::dec2(m as nat) + text::dec2(
                d as nat,
            ) + "_"@ + clock(secs % 86_400)
        };
    lemma_before_10000(y, m, d, secs / 86_400);
    reveal_strlit("_");
    let tod = secs % 86_400;
    lemma_two_digits(m as nat);
    lemma_two_digits(d as nat);
    lemma_two_digits(tod / 3600);
    lemma_two_digits((tod % 3600) / 60);
    lemma_two_digits(tod % 60);
    lemma_digits(y as nat);
    let head = text::zero_filled(text::dec(y as nat), 4);
    assert(head.len() == 4 && forall|i: int| 0 <= i < 4 ==> '0' <= #[trigger] head[i] <= '9');
}

proof fn lemma_before_10000(y: int, m: int, d: int, days: nat)
    requires
        is_date(y, m, d),
        day_number(y, m, d) == days,
        days < 2_932_897,
    ensures
        y < 10_000,
{
    if y >= 10_000 {
        lemma_month_starts(y);
        lemma_years_ordered(10_000, y);
    }
}

proof fn lemma_two_digits(n: nat)
    requires
        n < 100,
    ensures
        text::dec2(n).len() == 2,
        '0' <= text::dec2(n)[0] <= '9',
        '0' <= text::dec2(n)[1] <= '9',
{
    lemma_digits(n);
}

proof fn lemma_digits(n: nat)
    ensures
        text::dec(n).len() >= 1,
        n < 100 ==> text::dec(n).len() <= 2,
        n < 10_000 ==> text::dec(n).len() <= 4,
        forall|i: int| 0 <= i < text::dec(n).len() ==> '0' <= #[trigger] text::dec(n)[i] <= '9',
    decreases n,
{
    if n >= 10 {
        lemma_digits(n / 10);
        reveal_with_fuel(text::numeral, 5);
    }
}

} // verus!
