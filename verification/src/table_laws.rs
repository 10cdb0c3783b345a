//! What a rendered panel looks like.
use crate::consts::SOFTWARE_NAME;
use crate::counts;
use crate::counts::Counter;
use crate::fmt;
use crate::parse;
use crate::parse::{Protocol, Redundancy, NONE_STR, PROTO_ORDER};
use crate::report;
use crate::report::{Report, RowKind, COLUMNS, NO_RATE, N_COLUMNS};
use crate::rows;
use crate::stats::NS_PER_SEC;
use crate::table;
use crate::table::{Figures, Tint, Weight};
use crate::text;
use vstd::prelude::*;

verus! {

/// Whether every character of a text is of one sort.
pub open spec fn made_of(s: Seq<char>, sort: spec_fn(char) -> bool) -> bool {
    forall|i: int| 0 <= i < s.len() ==> sort(#[trigger] s[i])
}

/// The sort of character that starts no escape sequence.
pub open spec fn not_escape() -> spec_fn(char) -> bool {
    |c: char| c != '\u{1b}'
}

/// The ASCII characters.
pub open spec fn ascii_char() -> spec_fn(char) -> bool {
    |c: char| (c as nat) < 128
}

/// Whether a sort takes in printable ASCII.
pub open spec fn takes_printable(sort: spec_fn(char) -> bool) -> bool {
    forall|c: char| ' ' <= c <= '~' ==> #[trigger] sort(c)
}

/// Whether every cell of every row is made of one sort of character.
pub open spec fn rows_made_of(rs: Seq<report::RowView>, sort: spec_fn(char) -> bool) -> bool {
    forall|i: int, col: int|
        0 <= i < rs.len() && 0 <= col < N_COLUMNS ==> made_of(#[trigger] rs[i].cells[col], sort)
}

/// Whether every text that goes into a panel is made of one sort of character.
pub open spec fn panel_made_of(
    r: Report,
    context: Seq<char>,
    extra: Seq<char>,
    figures: Figures,
    sort: spec_fn(char) -> bool,
) -> bool {
    &&& rows_made_of(report::rows_view(r.rows@), sort)
    &&& made_of(context, sort)
    &&& made_of(extra, sort)
    &&& made_of(figures.bytes@, sort)
    &&& made_of(figures.seconds@, sort)
    &&& made_of(figures.millis@, sort)
}

// ---- Escape sequences -----------------------------------------------------------------

/// Behind a text that ends outside an escape sequence, another text is seen as
/// it would be alone.
pub proof fn lemma_visible_concat(a: Seq<char>, b: Seq<char>)
    requires
        !table::inside_escape(a),
    ensures
        table::inside_escape(a + b) == table::inside_escape(b),
        table::visible(a + b) == table::visible(a) + table::visible(b),
    decreases b.len(),
{
    if b.len() == 0 {
        assert(a + b =~= a);
    } else {
        lemma_visible_concat(a, b.drop_last());
        assert((a + b).drop_last() =~= a + b.drop_last());
    }
}

/// A text without escape sequences is seen whole.
pub proof fn lemma_visible_plain(s: Seq<char>)
    requires
        made_of(s, not_escape()),
    ensures
        !table::inside_escape(s),
        table::visible(s) == s.len(),
    decreases s.len(),
{
    if s.len() > 0 {
        assert(made_of(s.drop_last(), not_escape()));
        lemma_visible_plain(s.drop_last());
        assert(not_escape()(s.last()));
    }
}

proof fn lemma_open_escape(params: Seq<char>)
    requires
        made_of(params, |c: char| c != 'm'),
    ensures
        table::inside_escape(seq!['\u{1b}', '['] + params),
        table::visible(seq!['\u{1b}', '['] + params) == 0,
    decreases params.len(),
{
    let head = seq!['\u{1b}', '['];
    if params.len() == 0 {
        reveal_with_fuel(table::inside_escape, 3);
        reveal_with_fuel(table::visible, 3);
        assert(head + params =~= head);
        assert(head.drop_last() =~= seq!['\u{1b}']);
        assert(head.drop_last().drop_last() =~= Seq::empty());
        assert(table::inside_escape(head.drop_last()));
        assert(table::inside_escape(head));
    } else {
        let sort = |c: char| c != 'm';
        assert(made_of(params.drop_last(), sort));
        lemma_open_escape(params.drop_last());
        assert((head + params).drop_last() =~= head + params.drop_last());
        assert(sort(params.last()));
    }
}

/// An escape sequence is not seen, and it ends where it ends.
pub proof fn lemma_escape_invisible(params: Seq<char>)
    requires
        made_of(params, |c: char| c != 'm'),
    ensures
        !table::inside_escape(table::escape(params)),
        table::visible(table::escape(params)) == 0,
{
    lemma_open_escape(params);
    let e = table::escape(params);
    assert(e.drop_last() =~= seq!['\u{1b}', '['] + params);
    assert(e.last() == 'm');
}

proof fn lemma_numeral_printable(n: nat, base: nat)
    requires
        2 <= base <= 16,
    ensures
        made_of(text::numeral(n, base), |c: char| '0' <= c <= '9' || 'A' <= c <= 'F'),
    decreases n,
{
    if n >= base {
        assert(n / base < n) by (nonlinear_arith)
            requires
                n >= base,
                base >= 2,
        ;
        lemma_numeral_printable((n / base) as nat, base);
        assert(n % base < 16) by (nonlinear_arith)
            requires
                2 <= base <= 16,
        ;
    }
}

pub proof fn lemma_colour_params(tint: Tint)
    ensures
        made_of("38;5;"@ + text::dec(table::palette(tint)), |c: char| c != 'm'),
        made_of("39"@, |c: char| c != 'm'),
        made_of("0"@, |c: char| c != 'm'),
        made_of("1"@, |c: char| c != 'm'),
        made_of(Seq::<char>::empty(), |c: char| c != 'm'),
        text::ascii("38;5;"@ + text::dec(table::palette(tint))),
        text::ascii("39"@),
        text::ascii("0"@),
        text::ascii("1"@),
{
    reveal_strlit("38;5;");
    reveal_strlit("39");
    reveal_strlit("0");
    reveal_strlit("1");
    let n = table::palette(tint);
    lemma_numeral_printable(n, 10);
    let sort = |c: char| '0' <= c <= '9' || 'A' <= c <= 'F';
    let d = text::dec(n);
    assert forall|i: int| 0 <= i < d.len() implies #[trigger] d[i] != 'm' && (d[i] as nat) < 128 by {
        assert(sort(d[i]));
    }
}

pub proof fn lemma_styled(term: table::Terminal, s: Seq<char>, tint: Tint, weight: Weight)
    requires
        made_of(s, not_escape()),
    ensures
        !table::inside_escape(table::styled_text(term, s, tint, weight)),
        table::visible(table::styled_text(term, s, tint, weight)) == if term is Legacy {
            0
        } else {
            s.len()
        },
{
    if !(term is Legacy) {
        let on = table::colour_on(term, tint);
        let bold = if weight == Weight::Bold {
            table::escape("1"@)
        } else {
            Seq::empty()
        };
        let off = table::style_off(term, tint, weight);
        lemma_colour_params(tint);
        lemma_escape_invisible("38;5;"@ + text::dec(table::palette(tint)));
        lemma_escape_invisible("39"@);
        lemma_escape_invisible("0"@);
        lemma_escape_invisible("1"@);
        lemma_escape_invisible(Seq::empty());
        lemma_visible_plain(s);
        lemma_visible_concat(on, bold);
        lemma_visible_concat(on + bold, s);
        lemma_visible_concat(on + bold + s, off);
    }
}

/// A styled text takes no more room than its text.
proof fn lemma_visible_styled(r: Seq<char>, s: Seq<char>, tint: Tint, weight: Weight)
    requires
        table::is_styled(r, s, tint, weight),
        made_of(s, not_escape()),
    ensures
        !table::inside_escape(r),
        table::visible(r) <= s.len(),
{
    let term = choose|term: table::Terminal|
        r == #[trigger] table::styled_text(term, s, tint, weight);
    lemma_styled(term, s, tint, weight);
}

proof fn lemma_ascii_escape(params: Seq<char>)
    requires
        text::ascii(params),
    ensures
        text::ascii(table::escape(params)),
{
    let e = table::escape(params);
    assert forall|i: int| 0 <= i < e.len() implies (#[trigger] e[i] as nat) < 128 by {
        if 2 <= i < 2 + params.len() {
            assert(e[i] == params[i - 2]);
        }
    }
}

proof fn lemma_ascii_styled(r: Seq<char>, s: Seq<char>, tint: Tint, weight: Weight)
    requires
        table::is_styled(r, s, tint, weight),
        text::ascii(s),
    ensures
        text::ascii(r),
{
    let term = choose|term: table::Terminal| r == #[trigger] table::styled_text(term, s, tint, weight);
    lemma_colour_params(tint);
    lemma_ascii_escape("38;5;"@ + text::dec(table::palette(tint)));
    lemma_ascii_escape("39"@);
    lemma_ascii_escape("0"@);
    lemma_ascii_escape("1"@);
    lemma_ascii_escape(Seq::empty());
}

/// Styling adds nothing that is seen: a styled text shows the characters of the
/// text, unless the terminal is one that styled text is left out on.
pub proof fn law_styles_are_invisible(
    term: table::Terminal,
    s: Seq<char>,
    tint: Tint,
    weight: Weight,
)
    requires
        made_of(s, not_escape()),
    ensures
        table::visible(table::styled_text(term, s, tint, weight)) == if term is Legacy {
            0
        } else {
            s.len()
        },
{
    lemma_styled(term, s, tint, weight);
}

// ---- Rows ---------------------------------------------------------------------------------

/// Cells that fit their columns make a line that fits the table.
proof fn lemma_joined_visible(cells: Seq<Seq<char>>, widths: Seq<usize>)
    requires
        cells.len() == widths.len() > 0,
        forall|i: int|
            0 <= i < cells.len() ==> !table::inside_escape(#[trigger] cells[i]) && table::visible(
                cells[i],
            ) <= widths[i],
    ensures
        !table::inside_escape(text::joined(cells, "  "@)),
        table::visible(text::joined(cells, "  "@)) <= table::rule_width(widths),
    decreases cells.len(),
{
    reveal_strlit("  ");
    reveal_with_fuel(table::width_sum, 2);
    if cells.len() == 1 {
        assert(widths.drop_last() =~= Seq::empty());
    } else {
        let front = cells.drop_last();
        assert forall|i: int| 0 <= i < front.len() implies !table::inside_escape(
            #[trigger] front[i],
        ) && table::visible(front[i]) <= widths.drop_last()[i] by {
            assert(front[i] == cells[i]);
        }
        lemma_joined_visible(front, widths.drop_last());
        let j = text::joined(front, "  "@);
        lemma_visible_plain("  "@);
        lemma_visible_concat(j, "  "@);
        lemma_visible_concat(j + "  "@, cells.last());
    }
}

proof fn lemma_ascii_joined(cells: Seq<Seq<char>>, sep: Seq<char>)
    requires
        text::ascii(sep),
        forall|i: int| 0 <= i < cells.len() ==> text::ascii(#[trigger] cells[i]),
    ensures
        text::ascii(text::joined(cells, sep)),
    decreases cells.len(),
{
    if cells.len() > 1 {
        lemma_ascii_joined(cells.drop_last(), sep);
    }
}

proof fn lemma_made_of_joined(cells: Seq<Seq<char>>, sep: Seq<char>, sort: spec_fn(char) -> bool)
    requires
        made_of(sep, sort),
        forall|i: int| 0 <= i < cells.len() ==> made_of(#[trigger] cells[i], sort),
    ensures
        made_of(text::joined(cells, sep), sort),
    decreases cells.len(),
{
    if cells.len() > 1 {
        lemma_made_of_joined(cells.drop_last(), sep, sort);
    }
}

pub proof fn lemma_column_width(rows: Seq<report::RowView>, col: int)
    ensures
        COLUMNS@[col]@.len() <= table::column_width(rows, col),
        forall|i: int|
            0 <= i < rows.len() ==> (#[trigger] rows[i]).cells[col].len() <= table::column_width(
                rows,
                col,
            ),
    decreases rows.len(),
{
    if rows.len() > 0 {
        lemma_column_width(rows.drop_last(), col);
        assert forall|i: int| 0 <= i < rows.len() implies (
        #[trigger] rows[i]).cells[col].len() <= table::column_width(rows, col) by {
            if i < rows.len() - 1 {
                assert(rows.drop_last()[i] == rows[i]);
            }
        }
    }
}

/// The headings are printable ASCII.
proof fn lemma_headings(col: int, sort: spec_fn(char) -> bool)
    requires
        0 <= col < N_COLUMNS,
        takes_printable(sort),
    ensures
        made_of(COLUMNS@[col]@, sort),
{
    reveal_strlit("Protocol");
    reveal_strlit("VLAN");
    reveal_strlit("CoS");
    reveal_strlit("Redundancy");
    reveal_strlit("AppID");
    reveal_strlit("SVID/GOID");
    reveal_strlit("noASDU/stNum");
    reveal_strlit("confRev");
    reveal_strlit("Sim");
    reveal_strlit("bits/s");
    reveal_strlit("%");
}

proof fn lemma_row_visible(line: Seq<char>, row: report::RowView, widths: Seq<usize>)
    requires
        widths.len() == N_COLUMNS,
        table::is_row_line(line, row, widths),
        forall|col: int|
            0 <= col < N_COLUMNS ==> made_of(#[trigger] row.cells[col], not_escape())
                && row.cells[col].len() <= widths[col],
    ensures
        !table::inside_escape(line),
        table::visible(line) <= table::rule_width(widths),
{
    let cells = choose|cells: Seq<Seq<char>>|
        #![trigger text::joined(cells, "  "@)]
        {
            &&& cells.len() == N_COLUMNS
            &&& forall|i: int|
                0 <= i < N_COLUMNS ==> table::is_cell(
                    #[trigger] cells[i],
                    row,
                    i,
                    widths[i] as nat,
                )
            &&& line == text::joined(cells, "  "@)
        };
    assert forall|i: int| 0 <= i < cells.len() implies !table::inside_escape(#[trigger] cells[i])
        && table::visible(cells[i]) <= widths[i] by {
        assert(table::is_cell(cells[i], row, i, widths[i] as nat));
        let s = table::padded(row.cells[i], widths[i] as nat, table::flush_right(i));
        assert(made_of(row.cells[i], not_escape()));
        assert(made_of(s, not_escape()));
        assert(s.len() == widths[i]);
        let style = table::cell_style(row, i);
        if style == (Tint::Unchanged, Weight::Regular) {
            lemma_visible_plain(s);
        } else {
            lemma_visible_styled(cells[i], s, style.0, style.1);
        }
    }
    lemma_joined_visible(cells, widths);
}

proof fn lemma_header_visible(line: Seq<char>, widths: Seq<usize>)
    requires
        widths.len() == N_COLUMNS,
        table::is_header_line(line, widths),
        forall|col: int| 0 <= col < N_COLUMNS ==> COLUMNS@[col]@.len() <= #[trigger] widths[col],
    ensures
        !table::inside_escape(line),
        table::visible(line) <= table::rule_width(widths),
{
    let cells = choose|cells: Seq<Seq<char>>|
        #![trigger text::joined(cells, "  "@)]
        {
            &&& cells.len() == N_COLUMNS
            &&& forall|i: int|
                0 <= i < N_COLUMNS ==> table::is_styled(
                    #[trigger] cells[i],
                    table::padded(COLUMNS@[i]@, widths[i] as nat, table::flush_right(i)),
                    Tint::White,
                    Weight::Bold,
                )
            &&& line == text::joined(cells, "  "@)
        };
    assert forall|i: int| 0 <= i < cells.len() implies !table::inside_escape(#[trigger] cells[i])
        && table::visible(cells[i]) <= widths[i] by {
        let s = table::padded(COLUMNS@[i]@, widths[i] as nat, table::flush_right(i));
        lemma_headings(i, not_escape());
        assert(made_of(s, not_escape()));
        assert(s.len() == widths[i]);
        lemma_visible_styled(cells[i], s, Tint::White, Weight::Bold);
    }
    lemma_joined_visible(cells, widths);
}

proof fn lemma_row_ascii(line: Seq<char>, row: report::RowView, widths: Seq<usize>)
    requires
        widths.len() == N_COLUMNS,
        table::is_row_line(line, row, widths),
        forall|col: int| 0 <= col < N_COLUMNS ==> text::ascii(#[trigger] row.cells[col]),
    ensures
        text::ascii(line),
{
    reveal_strlit("  ");
    let cells = choose|cells: Seq<Seq<char>>|
        #![trigger text::joined(cells, "  "@)]
        {
            &&& cells.len() == N_COLUMNS
            &&& forall|i: int|
                0 <= i < N_COLUMNS ==> table::is_cell(
                    #[trigger] cells[i],
                    row,
                    i,
                    widths[i] as nat,
                )
            &&& line == text::joined(cells, "  "@)
        };
    assert forall|i: int| 0 <= i < cells.len() implies text::ascii(#[trigger] cells[i]) by {
        assert(table::is_cell(cells[i], row, i, widths[i] as nat));
        let s = table::padded(row.cells[i], widths[i] as nat, table::flush_right(i));
        assert(text::ascii(row.cells[i]));
        assert(text::ascii(s));
        let style = table::cell_style(row, i);
        if style != (Tint::Unchanged, Weight::Regular) {
            lemma_ascii_styled(cells[i], s, style.0, style.1);
        }
    }
    lemma_ascii_joined(cells, "  "@);
}

proof fn lemma_header_ascii(line: Seq<char>, widths: Seq<usize>)
    requires
        widths.len() == N_COLUMNS,
        table::is_header_line(line, widths),
    ensures
        text::ascii(line),
{
    reveal_strlit("  ");
    let cells = choose|cells: Seq<Seq<char>>|
        #![trigger text::joined(cells, "  "@)]
        {
            &&& cells.len() == N_COLUMNS
            &&& forall|i: int|
                0 <= i < N_COLUMNS ==> table::is_styled(
                    #[trigger] cells[i],
                    table::padded(COLUMNS@[i]@, widths[i] as nat, table::flush_right(i)),
                    Tint::White,
                    Weight::Bold,
                )
            &&& line == text::joined(cells, "  "@)
        };
    assert forall|i: int| 0 <= i < cells.len() implies text::ascii(#[trigger] cells[i]) by {
        let s = table::padded(COLUMNS@[i]@, widths[i] as nat, table::flush_right(i));
        lemma_headings(i, ascii_char());
        assert(made_of(s, ascii_char()));
        assert forall|k: int| 0 <= k < s.len() implies (#[trigger] s[k] as nat) < 128 by {
            assert(ascii_char()(s[k]));
        }
        lemma_ascii_styled(cells[i], s, Tint::White, Weight::Bold);
    }
    lemma_ascii_joined(cells, "  "@);
}

// ---- The footer -----------------------------------------------------------------------------

proof fn lemma_dec_made_of(n: nat, sort: spec_fn(char) -> bool)
    requires
        takes_printable(sort),
    ensures
        made_of(text::dec(n), sort),
        made_of(text::dec2(n), sort),
{
    lemma_numeral_made_of(n, 10, sort);
}

/// A footer is made of what its parts are made of.
proof fn lemma_footer_made_of(
    r: Report,
    figures: Figures,
    extra: Seq<char>,
    sort: spec_fn(char) -> bool,
)
    requires
        takes_printable(sort),
        made_of(extra, sort),
        made_of(figures.bytes@, sort),
        made_of(figures.seconds@, sort),
        made_of(figures.millis@, sort),
    ensures
        made_of(text::joined(table::footer_parts(r, figures, extra), "  "@), sort),
{
    reveal_strlit("  ");
    reveal_strlit("packets ");
    reveal_strlit("bytes ");
    reveal_strlit("uptime ");
    reveal_strlit("session total (");
    reveal_strlit("s)");
    reveal_strlit("window ");
    reveal_strlit(" ms");
    reveal_strlit(":");
    let up = r.uptime_secs as nat;
    lemma_dec_made_of(r.packets as nat, sort);
    lemma_dec_made_of(up / 3600, sort);
    lemma_dec_made_of((up % 3600) / 60, sort);
    lemma_dec_made_of(up % 60, sort);
    assert(made_of(fmt::hms(up), sort));
    let parts = table::footer_parts(r, figures, extra);
    assert(made_of(parts[0], sort));
    assert(made_of(parts[1], sort));
    assert(made_of(parts[2], sort));
    assert(made_of(parts[3], sort));
    lemma_made_of_joined(parts, "  "@, sort);
}

// ---- The panel ----------------------------------------------------------------------------

/// A line that fits is brought to the panel's width.
proof fn lemma_boxed_visible(content: Seq<char>, inner: nat)
    requires
        !table::inside_escape(content),
        table::visible(content) <= inner,
    ensures
        table::visible(table::boxed(content, inner)) == inner + 4,
{
    reveal_strlit("| ");
    reveal_strlit(" |");
    let fill = text::run(' ', (inner - table::visible(content)) as nat);
    lemma_visible_plain("| "@);
    lemma_visible_plain(fill);
    lemma_visible_plain(" |"@);
    lemma_visible_concat("| "@, content);
    lemma_visible_concat("| "@ + content, fill);
    lemma_visible_concat("| "@ + content + fill, " |"@);
}

proof fn lemma_boxed_ascii(content: Seq<char>, inner: nat)
    requires
        text::ascii(content),
    ensures
        text::ascii(table::boxed(content, inner)),
{
    reveal_strlit("| ");
    reveal_strlit(" |");
}

proof fn lemma_title(context: Seq<char>, sort: spec_fn(char) -> bool)
    requires
        takes_printable(sort),
        made_of(context, sort),
    ensures
        made_of(table::title(context), sort),
{
    reveal_strlit(" ");
    reveal_strlit(" - ");
    reveal_strlit("Network Load Monitor V2");
    assert(made_of(SOFTWARE_NAME@, sort));
}

proof fn lemma_ascii_range(c: char)
    requires
        (c as nat) < 128,
    ensures
        '\0' <= c <= '\u{7f}',
{
}

/// A border takes the panel's width when its title is ASCII.
proof fn lemma_top_visible(context: Seq<char>, inner: nat)
    requires
        made_of(context, not_escape()),
        text::ascii(context),
    ensures
        table::visible(table::top_line(context, inner)) == inner + 4,
{
    let t = table::title(context);
    reveal_strlit("+");
    reveal_strlit("+-");
    lemma_title(context, not_escape());
    assert(made_of(context, ascii_char()));
    lemma_title(context, ascii_char());
    assert(vstd::utf8::is_ascii_chars(t)) by {
        assert forall|i: int| 0 <= i < t.len() implies '\0' <= #[trigger] t[i]
            <= '\u{7f}' by {
            assert(ascii_char()(t[i]));
            lemma_ascii_range(t[i]);
        }
    }
    vstd::utf8::is_ascii_chars_encode_utf8(t);
    assert(made_of(table::top_line(context, inner), not_escape()));
    lemma_visible_plain(table::top_line(context, inner));
}

proof fn lemma_top_ascii(context: Seq<char>, inner: nat)
    requires
        text::ascii(context),
    ensures
        text::ascii(table::top_line(context, inner)),
{
    let t = table::title(context);
    reveal_strlit("+");
    reveal_strlit("+-");
    assert(made_of(context, ascii_char()));
    lemma_title(context, ascii_char());
    assert forall|i: int| 0 <= i < t.len() implies (#[trigger] t[i] as nat) < 128 by {
        assert(ascii_char()(t[i]));
    }
}

proof fn lemma_body_visible(
    rows: Seq<report::RowView>,
    lines: Seq<Seq<char>>,
    inner: nat,
    n: int,
)
    requires
        0 <= n <= lines.len(),
        forall|i: int|
            0 <= i < lines.len() ==> !table::inside_escape(#[trigger] lines[i]) && table::visible(
                lines[i],
            ) <= inner,
    ensures
        forall|i: int|
            0 <= i < table::body_lines(rows, lines, inner, n).len() ==> table::visible(
                #[trigger] table::body_lines(rows, lines, inner, n)[i],
            ) == inner + 4,
    decreases n,
{
    if n > 0 {
        lemma_body_visible(rows, lines, inner, n - 1);
        lemma_visible_plain(text::run('-', inner));
        lemma_boxed_visible(text::run('-', inner), inner);
        lemma_boxed_visible(lines[n - 1], inner);
        let above = table::body_lines(rows, lines, inner, n - 1);
        let now = table::body_lines(rows, lines, inner, n);
        assert forall|i: int| 0 <= i < now.len() implies table::visible(#[trigger] now[i]) == inner + 4 by {
            if i < above.len() {
                assert(now[i] == above[i]);
            }
        }
    }
}

proof fn lemma_body_ascii(
    rows: Seq<report::RowView>,
    lines: Seq<Seq<char>>,
    inner: nat,
    n: int,
)
    requires
        0 <= n <= lines.len(),
        forall|i: int| 0 <= i < lines.len() ==> text::ascii(#[trigger] lines[i]),
    ensures
        forall|i: int|
            0 <= i < table::body_lines(rows, lines, inner, n).len() ==> text::ascii(
                #[trigger] table::body_lines(rows, lines, inner, n)[i],
            ),
    decreases n,
{
    if n > 0 {
        lemma_body_ascii(rows, lines, inner, n - 1);
        lemma_boxed_ascii(text::run('-', inner), inner);
        lemma_boxed_ascii(lines[n - 1], inner);
        let above = table::body_lines(rows, lines, inner, n - 1);
        let now = table::body_lines(rows, lines, inner, n);
        assert forall|i: int| 0 <= i < now.len() implies text::ascii(#[trigger] now[i]) by {
            if i < above.len() {
                assert(now[i] == above[i]);
            }
        }
    }
}

/// Every line of a panel is the same visible width, whatever the terminal makes
/// of styles: at least the width asked for, and never less than 44 columns.
///
/// No text in the panel may start an escape sequence of its own. The title's
/// room in the top border is counted in bytes, so the title has to be ASCII.
pub proof fn law_every_line_is_the_same_width(
    lines: Seq<Seq<char>>,
    p: table::Painted,
    r: Report,
    context: Seq<char>,
    extra: Seq<char>,
    figures: Figures,
    width: nat,
    widths: Seq<usize>,
)
    requires
        table::is_panel(lines, p, r, context, extra, figures, width, widths),
        panel_made_of(r, context, extra, figures, not_escape()),
        text::ascii(context),
    ensures
        forall|i: int, j: int|
            0 <= i < lines.len() && 0 <= j < lines.len() ==> table::visible(#[trigger] lines[i])
                == table::visible(#[trigger] lines[j]),
        forall|i: int|
            0 <= i < lines.len() ==> table::visible(#[trigger] lines[i]) >= width
                && table::visible(lines[i]) >= 44,
{
    let rows = report::rows_view(r.rows@);
    let inner = table::inner_width(widths, p.footer, width);
    assert forall|col: int| 0 <= col < N_COLUMNS implies COLUMNS@[col]@.len()
        <= #[trigger] widths[col] by {
        lemma_column_width(rows, col);
    }
    lemma_header_visible(p.header, widths);
    assert forall|i: int| 0 <= i < p.rows.len() implies !table::inside_escape(#[trigger] p.rows[i])
        && table::visible(p.rows[i]) <= inner by {
        assert forall|col: int| 0 <= col < N_COLUMNS implies made_of(
            #[trigger] rows[i].cells[col],
            not_escape(),
        ) && rows[i].cells[col].len() <= widths[col] by {
            lemma_column_width(rows, col);
            assert(widths[col] as nat == table::column_width(rows, col));
        }
        lemma_row_visible(p.rows[i], rows[i], widths);
    }
    lemma_body_visible(rows, p.rows, inner, rows.len() as int);
    lemma_footer_made_of(r, figures, extra, not_escape());
    lemma_visible_styled(
        p.footer,
        text::joined(table::footer_parts(r, figures, extra), "  "@),
        Tint::DarkGrey,
        Weight::Regular,
    );
    lemma_top_visible(context, inner);
    lemma_boxed_visible(p.header, inner);
    lemma_visible_plain(text::run('-', inner));
    lemma_boxed_visible(text::run('-', inner), inner);
    lemma_boxed_visible(Seq::empty(), inner);
    lemma_boxed_visible(p.footer, inner);
    reveal_strlit("+");
    let bottom = "+"@ + text::run('-', inner + 2) + "+"@;
    lemma_visible_plain(bottom);
    assert forall|i: int| 0 <= i < lines.len() implies table::visible(#[trigger] lines[i]) == inner
        + 4 by {
        let body = table::body_lines(rows, p.rows, inner, rows.len() as int);
        if 3 <= i < 3 + body.len() {
            assert(lines[i] == body[i - 3]);
        }
    }
}

/// A panel is plain ASCII wherever what goes into it is.
pub proof fn law_output_stays_ascii(
    lines: Seq<Seq<char>>,
    p: table::Painted,
    r: Report,
    context: Seq<char>,
    extra: Seq<char>,
    figures: Figures,
    width: nat,
    widths: Seq<usize>,
)
    requires
        table::is_panel(lines, p, r, context, extra, figures, width, widths),
        panel_made_of(r, context, extra, figures, ascii_char()),
    ensures
        forall|i: int| 0 <= i < lines.len() ==> text::ascii(#[trigger] lines[i]),
{
    let rows = report::rows_view(r.rows@);
    let inner = table::inner_width(widths, p.footer, width);
    lemma_header_ascii(p.header, widths);
    assert forall|i: int| 0 <= i < p.rows.len() implies text::ascii(#[trigger] p.rows[i]) by {
        assert forall|col: int| 0 <= col < N_COLUMNS implies text::ascii(
            #[trigger] rows[i].cells[col],
        ) by {
            let cell = rows[i].cells[col];
            assert forall|k: int| 0 <= k < cell.len() implies (#[trigger] cell[k] as nat) < 128 by {
                assert(ascii_char()(cell[k]));
            }
        }
        lemma_row_ascii(p.rows[i], rows[i], widths);
    }
    lemma_body_ascii(rows, p.rows, inner, rows.len() as int);
    lemma_footer_made_of(r, figures, extra, ascii_char());
    let line = text::joined(table::footer_parts(r, figures, extra), "  "@);
    assert forall|k: int| 0 <= k < line.len() implies (#[trigger] line[k] as nat) < 128 by {
        assert(ascii_char()(line[k]));
    }
    lemma_ascii_styled(p.footer, line, Tint::DarkGrey, Weight::Regular);
    assert forall|k: int| 0 <= k < context.len() implies (#[trigger] context[k] as nat) < 128 by {
        assert(ascii_char()(context[k]));
    }
    lemma_top_ascii(context, inner);
    lemma_boxed_ascii(p.header, inner);
    lemma_boxed_ascii(text::run('-', inner), inner);
    lemma_boxed_ascii(Seq::empty(), inner);
    lemma_boxed_ascii(p.footer, inner);
    reveal_strlit("+");
    assert forall|i: int| 0 <= i < lines.len() implies text::ascii(#[trigger] lines[i]) by {
        let body = table::body_lines(rows, p.rows, inner, rows.len() as int);
        if 3 <= i < 3 + body.len() {
            assert(lines[i] == body[i - 3]);
        }
    }
}

// ---- What captured frames can do to a panel ---------------------------------------------------

/// Whether the identifiers of all keys are made of one sort of character.
pub open spec fn keys_made_of(
    es: Seq<(counts::StatKeyView, Counter)>,
    sort: spec_fn(char) -> bool,
) -> bool {
    forall|i: int|
        0 <= i < es.len() ==> ((#[trigger] es[i]).0.app.svid matches Some(t) ==> made_of(t, sort))
}

/// Whether the identifiers and the measures that a report is made from are made
/// of one sort of character.
pub open spec fn scene_made_of(s: report::Scene, sort: spec_fn(char) -> bool) -> bool {
    &&& forall|i: int| 0 <= i < s.stats.len() ==> keys_made_of((#[trigger] s.stats[i]).1, sort)
    &&& forall|i: int| 0 <= i < s.idle.len() ==> keys_made_of((#[trigger] s.idle[i]).1, sort)
    &&& forall|b: u64| made_of((#[trigger] (s.meter)(b)).rate, sort)
    &&& forall|b: u64| made_of((#[trigger] (s.meter)(b)).load, sort)
}

proof fn lemma_names_made_of(p: Protocol, sort: spec_fn(char) -> bool)
    requires
        takes_printable(sort),
    ensures
        made_of(parse::protocol_name(p), sort),
        made_of(NONE_STR@, sort),
{
    reveal_strlit("-");
    reveal_strlit("GOOSE");
    reveal_strlit("Sampled Values");
    reveal_strlit("R-GOOSE");
    reveal_strlit("PTP");
    reveal_strlit("MMS");
    reveal_strlit("DNP3");
    reveal_strlit("IEC104");
    reveal_strlit("Modbus TCP");
    reveal_strlit("R-SV");
    reveal_strlit("GSSE");
    reveal_strlit("NTP");
    reveal_strlit("LLDP");
    reveal_strlit("RSTP");
    reveal_strlit("ARP");
    reveal_strlit("IPv4");
    reveal_strlit("IPv6");
    reveal_strlit("Other");
}

proof fn lemma_numeral_made_of(n: nat, base: nat, sort: spec_fn(char) -> bool)
    requires
        takes_printable(sort),
        2 <= base <= 16,
    ensures
        made_of(text::numeral(n, base), sort),
{
    lemma_numeral_printable(n, base);
    let d = text::numeral(n, base);
    let digits = |c: char| '0' <= c <= '9' || 'A' <= c <= 'F';
    assert forall|i: int| 0 <= i < d.len() implies sort(#[trigger] d[i]) by {
        assert(digits(d[i]));
    }
}

proof fn lemma_list_made_of(numbers: Seq<nat>, sort: spec_fn(char) -> bool)
    requires
        takes_printable(sort),
    ensures
        made_of(
            parse::list_or_dash(Seq::new(numbers.len(), |i: int| text::dec(numbers[i]))),
            sort,
        ),
{
    reveal_strlit(", ");
    lemma_names_made_of(Protocol::Other, sort);
    let items = Seq::new(numbers.len(), |i: int| text::dec(numbers[i]));
    assert forall|i: int| 0 <= i < items.len() implies made_of(#[trigger] items[i], sort) by {
        lemma_dec_made_of(numbers[i], sort);
    }
    lemma_made_of_joined(items, ", "@, sort);
}

proof fn lemma_key_cells_made_of(
    p: Protocol,
    k: counts::StatKeyView,
    rate: Seq<char>,
    load: Seq<char>,
    sort: spec_fn(char) -> bool,
)
    requires
        takes_printable(sort),
        k.app.svid matches Some(t) ==> made_of(t, sort),
        made_of(rate, sort),
        made_of(load, sort),
    ensures
        forall|col: int|
            0 <= col < N_COLUMNS ==> made_of(
                #[trigger] report::key_cells(p, k, rate, load)[col],
                sort,
            ),
{
    let cells = report::key_cells(p, k, rate, load);
    lemma_names_made_of(p, sort);
    assert(made_of(cells[1], sort)) by {
        let ids = Seq::new(k.vlans.len(), |i: int| k.vlans[i].0 as nat);
        lemma_list_made_of(ids, sort);
        assert(Seq::new(ids.len(), |i: int| text::dec(ids[i])) =~= Seq::new(
            k.vlans.len(),
            |i: int| text::dec(k.vlans[i].0 as nat),
        ));
    }
    assert(made_of(cells[2], sort)) by {
        let pcps = Seq::new(k.vlans.len(), |i: int| k.vlans[i].1 as nat);
        lemma_list_made_of(pcps, sort);
        assert(Seq::new(pcps.len(), |i: int| text::dec(pcps[i])) =~= Seq::new(
            k.vlans.len(),
            |i: int| text::dec(k.vlans[i].1 as nat),
        ));
    }
    assert(made_of(cells[3], sort)) by {
        reveal_strlit("A");
        reveal_strlit("B");
        reveal_strlit("0x");
        reveal_strlit("HSR-");
        reveal_strlit("PRP-");
        match k.redundancy {
            Redundancy::Absent => {},
            Redundancy::Hsr(n) => {
                lemma_numeral_made_of(n as nat, 16, sort);
            },
            Redundancy::Prp(n) => {
                lemma_numeral_made_of(n as nat, 16, sort);
            },
        }
    }
    assert(made_of(cells[4], sort)) by {
        reveal_strlit("0x");
        if let Some(v) = k.app.appid {
            lemma_numeral_made_of(v as nat, 16, sort);
        }
    }
    assert(made_of(cells[5], sort));
    assert(made_of(cells[6], sort)) by {
        if let Some(n) = k.app.noasdu {
            lemma_dec_made_of(n as nat, sort);
        }
    }
    assert(made_of(cells[7], sort)) by {
        if let Some(n) = k.app.confrev {
            lemma_dec_made_of(n as nat, sort);
        }
    }
    assert(made_of(cells[8], sort)) by {
        reveal_strlit("yes");
        reveal_strlit("no");
    }
}

proof fn lemma_in_order_made_of(
    es: Seq<(counts::StatKeyView, Counter)>,
    sort: spec_fn(char) -> bool,
)
    requires
        keys_made_of(es, sort),
    ensures
        keys_made_of(rows::in_order(es), sort),
{
    broadcast use vstd::seq_lib::group_to_multiset_ensures;

    rows::law_rows_are_sorted(es);
    let sorted = rows::in_order(es);
    assert forall|i: int| 0 <= i < sorted.len() implies ((#[trigger] sorted[i]).0.app.svid matches Some(
        t,
    ) ==> made_of(t, sort)) by {
        assert(sorted.contains(sorted[i]));
        assert(sorted.to_multiset().count(sorted[i]) > 0);
        assert(es.contains(sorted[i]));
        let k = es.index_of(sorted[i]);
        assert(es[k] == sorted[i]);
    }
}

proof fn lemma_idle_from(
    idle: Seq<(Protocol, Seq<(counts::StatKeyView, Counter)>, u64)>,
    p: Protocol,
    i: int,
)
    ensures
        report::idle_from(idle, p, i) matches Some(n) ==> 0 <= n < idle.len(),
    decreases idle.len() - i,
{
    if 0 <= i < idle.len() && idle[i].0 != p {
        lemma_idle_from(idle, p, i + 1);
    }
}

proof fn lemma_candidates_made_of(s: report::Scene, p: Protocol, sort: spec_fn(char) -> bool)
    requires
        takes_printable(sort),
        scene_made_of(s, sort),
    ensures
        rows_made_of(report::candidates(s, p), sort),
{
    let es = counts::rows_of(s.stats, p);
    assert(keys_made_of(es, sort)) by {
        if counts::has_protocol(s.stats, p) {
            assert(counts::protocol_at(s.stats, p, counts::protocol_of(s.stats, p)));
        }
    }
    lemma_in_order_made_of(es, sort);
    let live = rows::in_order(es);
    let rs = report::candidates(s, p);
    assert forall|i: int, col: int|
        0 <= i < rs.len() && 0 <= col < N_COLUMNS implies made_of(
        #[trigger] rs[i].cells[col],
        sort,
    ) by {
        if live.len() > 0 {
            let m = (s.meter)(live[i].1.bytes);
            lemma_key_cells_made_of(p, live[i].0, m.rate, m.load, sort);
        } else {
            lemma_idle_from(s.idle, p, 0);
            let n = report::idle_from(s.idle, p, 0)->0;
            lemma_in_order_made_of(s.idle[n].1, sort);
            let last = rows::in_order(s.idle[n].1);
            reveal_strlit("idle ");
            reveal_strlit("s");
            reveal_strlit("0.000 bit/s");
            let since = (s.idle[n].2 / NS_PER_SEC) as nat;
            lemma_dec_made_of(since, sort);
            lemma_key_cells_made_of(
                p,
                last[i].0,
                NO_RATE@,
                "idle "@ + text::dec(since) + "s"@,
                sort,
            );
        }
    }
}

proof fn lemma_kept_made_of(
    f: Map<usize, Seq<Seq<char>>>,
    rs: Seq<report::RowView>,
    sort: spec_fn(char) -> bool,
)
    requires
        rows_made_of(rs, sort),
    ensures
        rows_made_of(report::kept(f, rs), sort),
    decreases rs.len(),
{
    if rs.len() > 0 {
        let front = rs.drop_last();
        assert(rows_made_of(front, sort)) by {
            assert forall|i: int, col: int|
                0 <= i < front.len() && 0 <= col < N_COLUMNS implies made_of(
                #[trigger] front[i].cells[col],
                sort,
            ) by {
                assert(front[i] == rs[i]);
                assert(made_of(rs[i].cells[col], sort));
            }
        }
        lemma_kept_made_of(f, front, sort);
        let all = report::kept(f, rs);
        assert forall|i: int, col: int|
            0 <= i < all.len() && 0 <= col < N_COLUMNS implies made_of(
            #[trigger] all[i].cells[col],
            sort,
        ) by {
            if i < report::kept(f, front).len() {
                assert(all[i] == report::kept(f, front)[i]);
                assert(made_of(report::kept(f, front)[i].cells[col], sort));
            } else {
                assert(all[i] == rs[rs.len() - 1]);
                assert(made_of(rs[rs.len() - 1].cells[col], sort));
            }
        }
    }
}

proof fn lemma_sum_row_made_of(
    kind: RowKind,
    name: Seq<char>,
    bytes: u64,
    m: report::MeasureView,
    sort: spec_fn(char) -> bool,
)
    requires
        takes_printable(sort),
        made_of(name, sort),
        made_of(m.rate, sort),
        made_of(m.load, sort),
    ensures
        forall|col: int|
            0 <= col < N_COLUMNS ==> made_of(
                #[trigger] report::sum_row(kind, name, bytes, m).cells[col],
                sort,
            ),
{
    lemma_names_made_of(Protocol::Other, sort);
}

proof fn lemma_rows_push(
    rs: Seq<report::RowView>,
    row: report::RowView,
    sort: spec_fn(char) -> bool,
)
    requires
        rows_made_of(rs, sort),
        forall|col: int| 0 <= col < N_COLUMNS ==> made_of(#[trigger] row.cells[col], sort),
    ensures
        rows_made_of(rs.push(row), sort),
{
    let all = rs.push(row);
    assert forall|i: int, col: int| 0 <= i < all.len() && 0 <= col < N_COLUMNS implies made_of(
        #[trigger] all[i].cells[col],
        sort,
    ) by {
        if i < rs.len() {
            assert(all[i] == rs[i]);
            assert(made_of(rs[i].cells[col], sort));
        } else {
            assert(all[i] == row);
            assert(made_of(row.cells[col], sort));
        }
    }
}

proof fn lemma_section_made_of(s: report::Scene, p: Protocol, sort: spec_fn(char) -> bool)
    requires
        takes_printable(sort),
        scene_made_of(s, sort),
    ensures
        rows_made_of(report::section(s, p), sort),
{
    lemma_candidates_made_of(s, p, sort);
    lemma_kept_made_of(s.filter, report::candidates(s, p), sort);
    let rs = report::shown(s, p);
    let sum = report::bytes_of(rs) as u64;
    reveal_strlit("Sum ");
    lemma_names_made_of(p, sort);
    let m = (s.meter)(sum);
    lemma_sum_row_made_of(RowKind::Subtotal, "Sum "@ + parse::protocol_name(p), sum, m, sort);
    lemma_rows_push(
        rs,
        report::sum_row(RowKind::Subtotal, "Sum "@ + parse::protocol_name(p), sum, m),
        sort,
    );
}

proof fn lemma_sections_made_of(s: report::Scene, n: int, sort: spec_fn(char) -> bool)
    requires
        takes_printable(sort),
        scene_made_of(s, sort),
        n <= PROTO_ORDER@.len(),
    ensures
        rows_made_of(report::sections(s, n), sort),
    decreases n,
{
    if n > 0 {
        let p = PROTO_ORDER@[n - 1];
        lemma_sections_made_of(s, n - 1, sort);
        lemma_section_made_of(s, p, sort);
        let a = report::sections(s, n - 1);
        let b = report::section(s, p);
        let all = report::sections(s, n);
        assert forall|i: int, col: int|
            0 <= i < all.len() && 0 <= col < N_COLUMNS implies made_of(
            #[trigger] all[i].cells[col],
            sort,
        ) by {
            if i < a.len() {
                assert(all[i] == a[i]);
                assert(made_of(a[i].cells[col], sort));
            } else {
                assert(all[i] == b[i - a.len()]);
                assert(made_of(b[i - a.len()].cells[col], sort));
            }
        }
    }
}

/// The cells of a report are made of what its identifiers and measures are made
/// of, beside printable ASCII. With identifiers as frames give them, which are
/// printable whatever bytes the frames carried, no cell holds an escape
/// sequence.
pub proof fn law_cells_are_made_of_what_was_read(s: report::Scene, sort: spec_fn(char) -> bool)
    requires
        takes_printable(sort),
        scene_made_of(s, sort),
    ensures
        rows_made_of(report::report_rows(s), sort),
{
    let parts = report::sections(s, PROTO_ORDER@.len() as int);
    lemma_sections_made_of(s, PROTO_ORDER@.len() as int, sort);
    reveal_strlit("TOTAL");
    lemma_names_made_of(Protocol::Other, sort);
    let other = report::other_bytes(s) as u64;
    let total = report::total_bytes(s) as u64;
    lemma_sum_row_made_of(
        RowKind::Other,
        parse::protocol_name(Protocol::Other),
        other,
        (s.meter)(other),
        sort,
    );
    lemma_sum_row_made_of(RowKind::Total, "TOTAL"@, total, (s.meter)(total), sort);
    lemma_rows_push(parts, report::other_row(s), sort);
    let above = if report::other_shown(s) {
        parts.push(report::other_row(s))
    } else {
        parts
    };
    lemma_rows_push(above, report::total_row(s), sort);
}

} // verus!
