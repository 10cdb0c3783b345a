//! What a panel shows, line by line.
use crate::fmt;
use crate::report;
use crate::report::{LoadLevel, Report, RowKind, COLUMNS};
use crate::table;
use crate::table::{Figures, Tint, Weight};
use crate::table_laws;
use crate::text;
use crate::text_laws;
use vstd::prelude::*;

verus! {

// ---- Cells --------------------------------------------------------------------------------------

/// A cell is filled with spaces to the width of its column: in front in the
/// columns noASDU/stNum, confRev, bits/s and %, and behind in all others.
pub proof fn law_cells_are_aligned(s: Seq<char>, width: nat, col: int)
    requires
        s.len() <= width,
        0 <= col < 11,
    ensures
        ({
            let c = table::padded(s, width, table::flush_right(col));
            let room = (width - s.len()) as nat;
            &&& col == 6 || col == 7 || col == 9 || col == 10 ==> c == text::run(' ', room) + s
            &&& col != 6 && col != 7 && col != 9 && col != 10 ==> c == s + text::run(' ', room)
        }),
{
}

/// A column is as wide as its heading or its longest cell, whichever is wider.
pub proof fn law_columns_are_as_wide_as_needed(rows: Seq<report::RowView>, col: int)
    requires
        0 <= col < 11,
    ensures
        ({
            let w = table::column_width(rows, col);
            &&& w >= COLUMNS@[col]@.len()
            &&& forall|i: int| 0 <= i < rows.len() ==> (#[trigger] rows[i]).cells[col].len() <= w
            &&& w == COLUMNS@[col]@.len() || exists|i: int|
                0 <= i < rows.len() && (#[trigger] rows[i]).cells[col].len() == w
        }),
    decreases rows.len(),
{
    table_laws::lemma_column_width(rows, col);
    if rows.len() > 0 {
        let front = rows.drop_last();
        let n = rows.len() - 1;
        law_columns_are_as_wide_as_needed(front, col);
        let w = table::column_width(rows, col);
        assert(rows[n] == rows.last());
        if w == table::column_width(front, col) && w != COLUMNS@[col]@.len() {
            let i = choose|i: int|
                0 <= i < front.len() && (#[trigger] front[i]).cells[col].len() == w;
            assert(rows[i] == front[i]);
        }
    }
}

/// Sums and idle rows are grey; the total is bold, its load in the colour of its
/// level. Else simulation is bold red, a redundancy bold magenta, a load is bold
/// red where critical and bold yellow where it warrants a warning, and every
/// other cell has the colour of its column.
pub proof fn law_cells_are_coloured_by_meaning(row: report::RowView, col: int)
    requires
        0 <= col < 11,
    ensures
        ({
            let style = table::cell_style(row, col);
            let plain = (Tint::Unchanged, Weight::Regular);
            match row.kind {
                RowKind::Subtotal | RowKind::Idle => style == (Tint::DarkGrey, Weight::Regular),
                RowKind::Total => style.1 == Weight::Bold && style.0 == (if col == 10 && row.level
                    == LoadLevel::Critical {
                    Tint::Red
                } else if col == 10 && row.level == LoadLevel::Warn {
                    Tint::Yellow
                } else {
                    Tint::Unchanged
                }),
                RowKind::Detail | RowKind::Other => {
                    &&& col == 8 && row.sim ==> style == (Tint::Red, Weight::Bold)
                    &&& col == 3 && row.redundant ==> style == (Tint::Magenta, Weight::Bold)
                    &&& col == 10 && row.level == LoadLevel::Critical ==> style == (
                        Tint::Red,
                        Weight::Bold,
                    )
                    &&& col == 10 && row.level == LoadLevel::Warn ==> style == (
                        Tint::Yellow,
                        Weight::Bold,
                    )
                    &&& col == 10 && row.level == LoadLevel::Normal ==> style == plain
                    &&& col == 0 || col == 7 ==> style == (Tint::Cyan, Weight::Regular)
                    &&& col == 1 ==> style == (Tint::Yellow, Weight::Regular)
                    &&& col == 2 ==> style == (Tint::Blue, Weight::Regular)
                    &&& col == 3 && !row.redundant ==> style == (Tint::Magenta, Weight::Regular)
                    &&& col == 4 ==> style == (Tint::Green, Weight::Regular)
                    &&& col == 5 || col == 6 || col == 9 ==> style == plain
                    &&& col == 8 && !row.sim ==> style == plain
                },
            }
        }),
{
}

// ---- Lines --------------------------------------------------------------------------------------

/// A text without its escape sequences.
pub open spec fn bare(s: Seq<char>) -> Seq<char>
    decreases s.len(),
{
    if s.len() == 0 {
        s
    } else if table::inside_escape(s.drop_last()) || s.last() == '\u{1b}' {
        bare(s.drop_last())
    } else {
        bare(s.drop_last()).push(s.last())
    }
}

proof fn lemma_bare_len(s: Seq<char>)
    ensures
        bare(s).len() == table::visible(s),
    decreases s.len(),
{
    if s.len() > 0 {
        lemma_bare_len(s.drop_last());
    }
}

proof fn lemma_bare_concat(a: Seq<char>, b: Seq<char>)
    requires
        !table::inside_escape(a),
    ensures
        bare(a + b) == bare(a) + bare(b),
    decreases b.len(),
{
    if b.len() == 0 {
        assert(a + b =~= a);
        assert(bare(a) + bare(b) =~= bare(a));
    } else {
        let c = b.drop_last();
        lemma_bare_concat(a, c);
        table_laws::lemma_visible_concat(a, c);
        assert((a + b).drop_last() =~= a + c);
        assert(bare(a + b) =~= bare(a) + bare(b));
    }
}

proof fn lemma_bare_plain(s: Seq<char>)
    requires
        table_laws::made_of(s, table_laws::not_escape()),
    ensures
        bare(s) == s,
        !table::inside_escape(s),
    decreases s.len(),
{
    table_laws::lemma_visible_plain(s);
    if s.len() > 0 {
        let front = s.drop_last();
        assert(table_laws::made_of(front, table_laws::not_escape()));
        lemma_bare_plain(front);
        assert(table_laws::not_escape()(s.last()));
        assert(front.push(s.last()) =~= s);
    }
}

proof fn lemma_bare_escape(params: Seq<char>)
    requires
        table_laws::made_of(params, |c: char| c != 'm'),
    ensures
        bare(table::escape(params)) == Seq::<char>::empty(),
        !table::inside_escape(table::escape(params)),
{
    table_laws::lemma_escape_invisible(params);
    lemma_bare_len(table::escape(params));
    assert(bare(table::escape(params)) =~= Seq::empty());
}

/// Styling a text leaves the text, or on a terminal without escape sequences
/// nothing.
pub proof fn law_styling_keeps_the_text(
    term: table::Terminal,
    s: Seq<char>,
    tint: Tint,
    weight: Weight,
)
    requires
        table_laws::made_of(s, table_laws::not_escape()),
    ensures
        bare(table::styled_text(term, s, tint, weight)) == (if term is Legacy {
            Seq::empty()
        } else {
            s
        }),
        !table::inside_escape(table::styled_text(term, s, tint, weight)),
{
    if !(term is Legacy) {
        let on = table::colour_on(term, tint);
        let bold = if weight == Weight::Bold {
            table::escape("1"@)
        } else {
            Seq::empty()
        };
        let off = table::style_off(term, tint, weight);
        table_laws::lemma_colour_params(tint);
        lemma_bare_escape("38;5;"@ + text::dec(table::palette(tint)));
        lemma_bare_escape("39"@);
        lemma_bare_escape("0"@);
        lemma_bare_escape("1"@);
        lemma_bare_escape(Seq::empty());
        lemma_bare_plain(s);
        table_laws::lemma_visible_concat(on, bold);
        table_laws::lemma_visible_concat(on + bold, s);
        table_laws::lemma_visible_concat(on + bold + s, off);
        lemma_bare_concat(on, bold);
        lemma_bare_concat(on + bold, s);
        lemma_bare_concat(on + bold + s, off);
        assert(bare(on) =~= Seq::empty() && bare(bold) =~= Seq::empty() && bare(off)
            =~= Seq::empty());
        assert(bare(table::styled_text(term, s, tint, weight)) =~= s);
    }
}

proof fn lemma_bare_joined(cells: Seq<Seq<char>>, shown: Seq<Seq<char>>)
    requires
        cells.len() == shown.len(),
        forall|i: int|
            0 <= i < cells.len() ==> bare(#[trigger] cells[i]) == shown[i]
                && !table::inside_escape(cells[i]),
    ensures
        bare(text::joined(cells, "  "@)) == text::joined(shown, "  "@),
        !table::inside_escape(text::joined(cells, "  "@)),
    decreases cells.len(),
{
    reveal_strlit("  ");
    lemma_bare_plain("  "@);
    if cells.len() > 1 {
        let a = cells.drop_last();
        let b = shown.drop_last();
        assert forall|i: int| 0 <= i < a.len() implies bare(#[trigger] a[i]) == b[i]
            && !table::inside_escape(a[i]) by {
            assert(a[i] == cells[i]);
        }
        lemma_bare_joined(a, b);
        let x = text::joined(a, "  "@);
        let n = cells.len() - 1;
        assert(bare(cells[n]) == shown[n]);
        table_laws::lemma_visible_concat(x, "  "@);
        table_laws::lemma_visible_concat(x + "  "@, cells[n]);
        lemma_bare_concat(x, "  "@);
        lemma_bare_concat(x + "  "@, cells[n]);
    } else if cells.len() == 1 {
        assert(bare(cells[0]) == shown[0]);
    }
}

proof fn lemma_padded_plain(s: Seq<char>, width: nat, right: bool)
    requires
        table_laws::made_of(s, table_laws::not_escape()),
    ensures
        table_laws::made_of(table::padded(s, width, right), table_laws::not_escape()),
{
    let p = table::padded(s, width, right);
    assert forall|i: int| 0 <= i < p.len() implies table_laws::not_escape()(#[trigger] p[i]) by {
        let fill = p.len() - s.len();
        if right && i >= fill {
            assert(table_laws::not_escape()(s[i - fill]));
        }
        if !right && i < s.len() {
            assert(table_laws::not_escape()(s[i]));
        }
    }
}

/// The line of a row shows its cells in order, each filled to its column and two
/// spaces between; of a styled cell a terminal without escape sequences shows
/// nothing.
pub proof fn law_a_row_line_shows_its_cells(
    line: Seq<char>,
    row: report::RowView,
    widths: Seq<usize>,
)
    requires
        table::is_row_line(line, row, widths),
        forall|c: int|
            0 <= c < 11 ==> table_laws::made_of(
                #[trigger] row.cells[c],
                table_laws::not_escape(),
            ),
    ensures
        exists|shown: Seq<Seq<char>>|
            #![trigger text::joined(shown, "  "@)]
            {
                &&& shown.len() == 11
                &&& forall|c: int|
                    0 <= c < 11 ==> {
                        let cell = table::padded(
                            row.cells[c],
                            widths[c] as nat,
                            c == 6 || c == 7 || c == 9 || c == 10,
                        );
                        ||| (#[trigger] shown[c]) == cell
                        ||| shown[c].len() == 0 && table::cell_style(row, c) != (
                            Tint::Unchanged,
                            Weight::Regular,
                        )
                    }
                &&& bare(line) == text::joined(shown, "  "@)
            },
{
    let cells = choose|cells: Seq<Seq<char>>|
        #![trigger text::joined(cells, "  "@)]
        {
            &&& cells.len() == 11
            &&& forall|i: int|
                0 <= i < 11 ==> table::is_cell(#[trigger] cells[i], row, i, widths[i] as nat)
            &&& line == text::joined(cells, "  "@)
        };
    let shown = Seq::new(11, |c: int| bare(cells[c]));
    assert forall|c: int| 0 <= c < 11 implies !table::inside_escape(#[trigger] cells[c]) && {
        let cell = table::padded(row.cells[c], widths[c] as nat, table::flush_right(c));
        ||| bare(cells[c]) == cell
        ||| bare(cells[c]).len() == 0 && table::cell_style(row, c) != (
            Tint::Unchanged,
            Weight::Regular,
        )
    } by {
        let cell = table::padded(row.cells[c], widths[c] as nat, table::flush_right(c));
        assert(table_laws::made_of(row.cells[c], table_laws::not_escape()));
        lemma_padded_plain(row.cells[c], widths[c] as nat, table::flush_right(c));
        lemma_bare_plain(cell);
        assert(table::is_cell(cells[c], row, c, widths[c] as nat));
        let style = table::cell_style(row, c);
        if style != (Tint::Unchanged, Weight::Regular) {
            let term = choose|term: table::Terminal|
                cells[c] == #[trigger] table::styled_text(term, cell, style.0, style.1);
            law_styling_keeps_the_text(term, cell, style.0, style.1);
        }
    }
    lemma_bare_joined(cells, shown);
    assert forall|c: int| 0 <= c < 11 implies {
        let cell = table::padded(
            row.cells[c],
            widths[c] as nat,
            c == 6 || c == 7 || c == 9 || c == 10,
        );
        ||| (#[trigger] shown[c]) == cell
        ||| shown[c].len() == 0 && table::cell_style(row, c) != (Tint::Unchanged, Weight::Regular)
    } by {
        assert(!table::inside_escape(cells[c]));
    }
    assert(bare(line) == text::joined(shown, "  "@));
}

/// A panel holds its title, its header, a rule, a line for each row in order with
/// a rule above the total, an empty line, the footer, and its lower border.
pub proof fn law_a_panel_holds_every_row(
    p: table::Painted,
    rows: Seq<report::RowView>,
    context: Seq<char>,
    inner: nat,
)
    requires
        p.rows.len() == rows.len(),
        rows.len() > 0,
        forall|i: int| 0 <= i < rows.len() - 1 ==> (#[trigger] rows[i]).kind != RowKind::Total,
        rows.last().kind == RowKind::Total,
    ensures
        ({
            let lines = table::panel_lines(p, rows, context, inner);
            let n = rows.len() as int;
            let ruled = if n > 1 {
                1int
            } else {
                0
            };
            let rule = "| "@ + text::run('-', inner) + " |"@;
            &&& lines.len() == n + ruled + 6
            &&& lines[0] == table::top_line(context, inner)
            &&& lines[1] == table::boxed(p.header, inner)
            &&& lines[2] == rule
            &&& forall|i: int|
                0 <= i < n - 1 ==> lines[3 + i] == table::boxed(#[trigger] p.rows[i], inner)
            &&& n > 1 ==> lines[n + 2] == rule
            &&& lines[n + 2 + ruled] == table::boxed(p.rows[n - 1], inner)
            &&& lines[n + 3 + ruled] == "| "@ + text::run(' ', inner) + " |"@
            &&& lines[n + 4 + ruled] == table::boxed(p.footer, inner)
            &&& lines[n + 5 + ruled] == "+"@ + text::run('-', inner + 2) + "+"@
        }),
{
    let n = rows.len() as int;
    lemma_body(rows, p.rows, inner, n - 1);
    let body = table::body_lines(rows, p.rows, inner, n);
    let above = table::body_lines(rows, p.rows, inner, n - 1);
    let dashes = text::run('-', inner);
    assert(rows[n - 1] == rows.last());
    assert(table_laws::made_of(dashes, table_laws::not_escape()));
    table_laws::lemma_visible_plain(dashes);
    let rule = "| "@ + dashes + " |"@;
    assert(table::boxed(dashes, inner) =~= rule) by {
        assert(text::run(' ', 0) =~= Seq::empty());
    }
    assert(table::boxed(Seq::empty(), inner) =~= "| "@ + text::run(' ', inner) + " |"@);
    let lines = table::panel_lines(p, rows, context, inner);
    assert forall|i: int| 0 <= i < n - 1 implies lines[3 + i] == table::boxed(
        #[trigger] p.rows[i],
        inner,
    ) by {
        assert(above[i] == table::boxed(p.rows[i], inner));
        assert(body[i] == above[i]);
    }
}

proof fn lemma_body(rows: Seq<report::RowView>, lines: Seq<Seq<char>>, inner: nat, n: int)
    requires
        0 <= n < rows.len(),
        forall|i: int| 0 <= i < rows.len() - 1 ==> (#[trigger] rows[i]).kind != RowKind::Total,
    ensures
        table::body_lines(rows, lines, inner, n).len() == n,
        forall|i: int|
            0 <= i < n ==> (#[trigger] table::body_lines(rows, lines, inner, n)[i]) == table::boxed(
                lines[i],
                inner,
            ),
    decreases n,
{
    if n > 0 {
        lemma_body(rows, lines, inner, n - 1);
        assert(rows[n - 1].kind != RowKind::Total);
    }
}

/// The title stands in the upper border if it leaves room for it: a corner and a
/// dash, the title between spaces, and dashes up to the other corner.
pub proof fn law_the_title_stands_in_the_border(context: Seq<char>, inner: nat)
    requires
        text::ascii(context),
    ensures
        ({
            let t = " Network Load Monitor V2 - "@ + context + " "@;
            let line = table::top_line(context, inner);
            &&& line.len() == inner + 4
            &&& t.len() + 2 < inner ==> line == "+-"@ + t + text::run(
                '-',
                (inner + 1 - t.len()) as nat,
            ) + "+"@
            &&& t.len() + 2 >= inner ==> line == "+"@ + text::run('-', inner + 2) + "+"@
        }),
{
    reveal_strlit(" Network Load Monitor V2 - ");
    reveal_strlit("Network Load Monitor V2");
    reveal_strlit(" - ");
    reveal_strlit(" ");
    reveal_strlit("+");
    reveal_strlit("+-");
    let t = " Network Load Monitor V2 - "@ + context + " "@;
    assert(table::title(context) =~= t);
    assert(vstd::utf8::is_ascii_chars(t)) by {
        assert forall|i: int| 0 <= i < t.len() implies '\0' <= #[trigger] t[i] <= '\u{7f}' by {
            if 27 <= i < 27 + context.len() {
                lemma_ascii(context[i - 27]);
                assert(t[i] == context[i - 27]);
            }
        }
    }
    vstd::utf8::is_ascii_chars_encode_utf8(t);
}

proof fn lemma_ascii(c: char)
    requires
        (c as nat) < 128,
    ensures
        '\0' <= c <= '\u{7f}',
{
}

/// The footer tells packets, bytes, uptime, and the window or that it is the
/// session total; then whatever else there is to say.
pub proof fn law_the_footer_tells_the_figures(r: Report, figures: Figures, extra: Seq<char>)
    ensures
        ({
            let parts = table::footer_parts(r, figures, extra);
            &&& parts.len() == (if extra.len() > 0 {
                5int
            } else {
                4
            })
            &&& parts[0] == "packets "@ + text::dec(r.packets as nat)
            &&& parts[1] == "bytes "@ + figures.bytes@
            &&& parts[2] == "uptime "@ + fmt::hms(r.uptime_secs as nat)
            &&& r.is_session_total ==> parts[3] == "session total ("@ + figures.seconds@ + "s)"@
            &&& !r.is_session_total ==> parts[3] == "window "@ + figures.millis@ + " ms"@
            &&& extra.len() > 0 ==> parts[4] == extra
        }),
{
}

// ---- Values -------------------------------------------------------------------------------------

/// A time reads as hours, minutes and seconds, of two digits each at least.
pub proof fn law_times_read_as_hours_minutes_seconds(h: nat, m: nat, s: nat)
    requires
        m < 60,
        s < 60,
    ensures
        fmt::hms(3600 * h + 60 * m + s) == text::dec2(h) + ":"@ + text::dec2(m) + ":"@ + text::dec2(
            s,
        ),
        h < 100 ==> text::dec2(h) == text::dec((h / 10) as nat) + text::dec((h % 10) as nat),
        text::dec2(m) == text::dec((m / 10) as nat) + text::dec((m % 10) as nat),
        text::dec2(s) == text::dec((s / 10) as nat) + text::dec((s % 10) as nat),
{
    let t = 3600 * h + 60 * m + s;
    assert(t / 3600 == h && t % 3600 == 60 * m + s);
    assert((60 * m + s) / 60 == m && t % 60 == s);
    if h < 100 {
        text_laws::law_two_digits(h);
    }
    text_laws::law_two_digits(m);
    text_laws::law_two_digits(s);
}

/// Trailing zeros go behind the point, but so many decimals stay; a number
/// without a point stays as it is.
pub proof fn law_decimals_are_kept(whole: Seq<char>, decimals: Seq<char>, zeros: nat, keep: nat)
    requires
        text::ascii(whole),
        text::ascii(decimals),
        !whole.contains('.'),
        !decimals.contains('.'),
        decimals.len() > 0 ==> decimals.last() != '0',
    ensures
        fmt::zeros_trimmed(whole, keep) == whole,
        ({
            let s = whole + seq!['.'] + decimals + text::run('0', zeros);
            let stay = if decimals.len() >= keep {
                0
            } else if keep - decimals.len() <= zeros {
                keep - decimals.len()
            } else {
                zeros as int
            };
            fmt::zeros_trimmed(s, keep) == whole + seq!['.'] + decimals + text::run(
                '0',
                stay as nat,
            )
        }),
{
    let front = whole + seq!['.'] + decimals;
    let s = front + text::run('0', zeros);
    lemma_point(whole, Seq::empty());
    assert(whole + Seq::<char>::empty() =~= whole);
    lemma_point(whole, seq!['.'] + decimals + text::run('0', zeros));
    assert(whole + (seq!['.'] + decimals + text::run('0', zeros)) =~= s);
    assert(s.take(whole.len() as int) =~= whole);
    lemma_size(whole);
    lemma_without_zeros(front, decimals, zeros, whole.len() + 1 + keep);
}

proof fn lemma_size(s: Seq<char>)
    requires
        text::ascii(s),
    ensures
        fmt::size(s) == s.len(),
{
    assert(vstd::utf8::is_ascii_chars(s)) by {
        assert forall|i: int| 0 <= i < s.len() implies '\0' <= #[trigger] s[i] <= '\u{7f}' by {
            lemma_ascii(s[i]);
        }
    }
    vstd::utf8::is_ascii_chars_encode_utf8(s);
}

proof fn lemma_point(whole: Seq<char>, rest: Seq<char>)
    requires
        !whole.contains('.'),
        rest.len() == 0 || rest[0] == '.',
    ensures
        fmt::point(whole + rest) == whole.len(),
    decreases whole.len(),
{
    let s = whole + rest;
    if whole.len() > 0 {
        let w = whole.drop_first();
        assert(whole.contains(whole[0]));
        assert(!w.contains('.')) by {
            if w.contains('.') {
                let i = w.index_of('.');
                assert(whole[i + 1] == '.');
            }
        }
        lemma_point(w, rest);
        assert(s.drop_first() =~= w + rest);
    } else {
        assert(s =~= rest);
    }
}

proof fn lemma_without_zeros(front: Seq<char>, decimals: Seq<char>, zeros: nat, floor: nat)
    requires
        text::ascii(front),
        front.len() > decimals.len(),
        decimals.len() > 0 ==> front.last() == decimals.last() && decimals.last() != '0',
        decimals.len() == 0 ==> front.last() == '.',
    ensures
        fmt::without_zeros(front + text::run('0', zeros), floor) == front + text::run(
            '0',
            if front.len() >= floor {
                0nat
            } else if floor - front.len() <= zeros {
                (floor - front.len()) as nat
            } else {
                zeros
            },
        ),
    decreases zeros,
{
    let s = front + text::run('0', zeros);
    assert(text::ascii(s)) by {
        assert forall|i: int| 0 <= i < s.len() implies (#[trigger] s[i] as nat) < 128 by {
            if i < front.len() {
                assert(s[i] == front[i]);
            } else {
                assert(s[i] == '0');
            }
        }
    }
    lemma_size(s);
    if zeros > 0 {
        let t = front + text::run('0', (zeros - 1) as nat);
        assert(s.last() == '0');
        assert(s.drop_last() =~= t);
        lemma_without_zeros(front, decimals, (zeros - 1) as nat, floor);
    } else {
        assert(s =~= front);
        assert(front + text::run('0', 0) =~= front);
    }
}

/// A line in a panel stands between bars, with spaces up to its width.
pub proof fn law_lines_stand_between_bars(content: Seq<char>, inner: nat)
    requires
        table::visible(content) <= inner,
    ensures
        table::boxed(content, inner) == "| "@ + content + text::run(
            ' ',
            (inner - table::visible(content)) as nat,
        ) + " |"@,
{
}

/// A panel is as wide as its table, its footer, a width of 40 and the terminal
/// less the borders ask for, and no wider than one of them asks for.
pub proof fn law_a_panel_is_as_wide_as_needed(
    widths: Seq<usize>,
    footer: Seq<char>,
    width: nat,
    table_width: nat,
)
    ensures
        ({
            let w = table::inner_for(table_width, footer, width);
            &&& table_width <= w && table::visible(footer) <= w && 40 <= w && width <= w + 4
            &&& w == table_width || w == table::visible(footer) || w == 40 || w + 4 == width
        }),
        ({
            let w = table::inner_width(widths, footer, width);
            let t = table::rule_width(widths);
            &&& t <= w && table::visible(footer) <= w && 40 <= w && width <= w + 4
            &&& w == t || w == table::visible(footer) || w == 40 || w + 4 == width
        }),
{
}

} // verus!
