//! Terminal rendering of a [`Report`].
//!
//! Everything drawn here is plain ASCII. A Windows console running a legacy
//! code page cannot encode box-drawing characters, and rendering one there
//! fails outright rather than degrading to a `?`.
use crate::consts::SOFTWARE_NAME;
use crate::fmt;
use crate::fmt::fmt_hms;
use crate::report;
use crate::report::{LoadLevel, Report, Row, RowKind, COLUMNS, N_COLUMNS};
use crate::text;
use crate::text::{decimal, join_strings, push_run};
use crossterm::style::{Attribute, Attributes, Color, ContentStyle};
use vstd::prelude::*;

verus! {

broadcast use text::lemma_texts_push;

// ---- Styling ------------------------------------------------------------------------

/// The colours the panel uses.
#[derive(Clone, Copy, PartialEq, Eq, Structural, Debug)]
pub enum Tint {
    /// The terminal's own colour.
    Unchanged,
    Cyan,
    Yellow,
    Blue,
    Magenta,
    Green,
    White,
    Red,
    DarkGrey,
}

/// How heavy text is set.
#[derive(Clone, Copy, PartialEq, Eq, Structural, Debug)]
pub enum Weight {
    Regular,
    Bold,
}

/// What a terminal makes of styles.
pub ghost enum Terminal {
    /// It shows colours.
    Coloured,
    /// Colours are switched off by the environment.
    Monochrome,
    /// It knows no escape sequences, and styled text is left out.
    Legacy,
}

/// An escape sequence that selects graphic rendition.
pub open spec fn escape(params: Seq<char>) -> Seq<char> {
    seq!['\u{1b}', '['] + params + seq!['m']
}

/// The palette entry of a colour.
pub open spec fn palette(t: Tint) -> nat {
    match t {
        Tint::Unchanged => 0,
        Tint::Cyan => 14,
        Tint::Yellow => 11,
        Tint::Blue => 12,
        Tint::Magenta => 13,
        Tint::Green => 10,
        Tint::White => 15,
        Tint::Red => 9,
        Tint::DarkGrey => 8,
    }
}

/// What switches a colour on.
pub open spec fn colour_on(term: Terminal, tint: Tint) -> Seq<char> {
    if tint == Tint::Unchanged {
        Seq::empty()
    } else if term is Coloured {
        escape("38;5;"@ + text::dec(palette(tint)))
    } else {
        escape(Seq::empty())
    }
}

/// What switches a style off again.
pub open spec fn style_off(term: Terminal, tint: Tint, weight: Weight) -> Seq<char> {
    if weight == Weight::Bold {
        escape("0"@)
    } else if tint == Tint::Unchanged {
        Seq::empty()
    } else if term is Coloured {
        escape("39"@)
    } else {
        escape(Seq::empty())
    }
}

/// Text in a style, as a terminal of the given kind gets it.
pub open spec fn styled_text(term: Terminal, s: Seq<char>, tint: Tint, weight: Weight) -> Seq<
    char,
> {
    if term is Legacy {
        Seq::empty()
    } else {
        colour_on(term, tint) + (if weight == Weight::Bold {
            escape("1"@)
        } else {
            Seq::empty()
        }) + s + style_off(term, tint, weight)
    }
}

/// Whether `r` is text in a style, on some terminal.
pub open spec fn is_styled(r: Seq<char>, s: Seq<char>, tint: Tint, weight: Weight) -> bool {
    exists|term: Terminal| r == #[trigger] styled_text(term, s, tint, weight)
}

/// Text in a style: the content of `crossterm::style::StyledContent`, whose
/// `Display` writes the sequence for the foreground colour, then the one for
/// bold, the text itself, and the sequence that undoes them. With `NO_COLOR`
/// set the colour sequences carry no parameters, and on a Windows console
/// without escape sequences nothing is written; which of these holds is the
/// environment's, so it is left open here.
#[verifier::external_body]
fn styled(s: &str, tint: Tint, weight: Weight) -> (r: String)
    ensures
        is_styled(r@, s@, tint, weight),
{
    let foreground_color = match tint {
        Tint::Unchanged => None,
        Tint::Cyan => Some(Color::Cyan),
        Tint::Yellow => Some(Color::Yellow),
        Tint::Blue => Some(Color::Blue),
        Tint::Magenta => Some(Color::Magenta),
        Tint::Green => Some(Color::Green),
        Tint::White => Some(Color::White),
        Tint::Red => Some(Color::Red),
        Tint::DarkGrey => Some(Color::DarkGrey),
    };
    let attributes = match weight { Weight::Regular => Attributes::none(), Weight::Bold => Attribute::Bold.into() };
    ContentStyle { foreground_color, attributes, ..ContentStyle::new() }.apply(s).to_string()
}

// ---- Visible length -------------------------------------------------------------------

/// Whether a text ends inside an escape sequence.
pub open spec fn inside_escape(s: Seq<char>) -> bool
    decreases s.len(),
{
    if s.len() == 0 {
        false
    } else if inside_escape(s.drop_last()) {
        s.last() != 'm'
    } else {
        s.last() == '\u{1b}'
    }
}

/// The length of a text without its escape sequences.
pub open spec fn visible(s: Seq<char>) -> nat
    decreases s.len(),
{
    if s.len() == 0 {
        0
    } else {
        visible(s.drop_last()) + (if inside_escape(s.drop_last()) || s.last() == '\u{1b}' {
            0nat
        } else {
            1nat
        })
    }
}

/// Length of `s` ignoring ANSI escape sequences.
pub fn visible_len(s: &str) -> (r: usize)
    ensures
        r == visible(s@),
{
    let cs: Vec<char> = text::chars_of(s);
    let mut n: usize = 0;
    let mut in_escape: bool = false;
    let mut i: usize = 0;
    while i < cs.len()
        invariant
            i <= cs@.len(),
            n <= i,
            n == visible(cs@.take(i as int)),
            in_escape == inside_escape(cs@.take(i as int)),
        decreases cs@.len() - i,
    {
        let c: char = cs[i];
        assert(cs@.take(i + 1).drop_last() =~= cs@.take(i as int));
        if in_escape {
            if c == 'm' {
                in_escape = false;
            }
        } else if c == '\u{1b}' {
            in_escape = true;
        } else {
            n += 1;
        }
        i += 1;
    }
    assert(cs@.take(i as int) =~= s@);
    n
}

// ---- The panel: model -------------------------------------------------------------------

/// The tint of a column's detail cells.
pub open spec fn column_tint(col: int) -> Tint {
    if col == 0 || col == 7 {
        Tint::Cyan
    } else if col == 1 {
        Tint::Yellow
    } else if col == 2 {
        Tint::Blue
    } else if col == 3 {
        Tint::Magenta
    } else if col == 4 {
        Tint::Green
    } else {
        Tint::Unchanged
    }
}

/// Whether a column is rendered flush right, where comparing magnitudes
/// matters.
pub open spec fn flush_right(col: int) -> bool {
    col == 6 || col == 7 || col == 9 || col == 10
}

/// How a load reads.
pub open spec fn load_style(level: LoadLevel) -> (Tint, Weight) {
    match level {
        LoadLevel::Critical => (Tint::Red, Weight::Bold),
        LoadLevel::Warn => (Tint::Yellow, Weight::Bold),
        LoadLevel::Normal => (Tint::Unchanged, Weight::Regular),
    }
}

/// The style of a cell.
///
/// Subtotals and idle rows are structurally secondary, so they are dim. The
/// total is bold. A frame carrying the simulation flag is not real plant data
/// and gets the loudest styling in the table for exactly that reason.
pub open spec fn cell_style(row: report::RowView, col: int) -> (Tint, Weight) {
    if row.kind == RowKind::Subtotal || row.kind == RowKind::Idle {
        (Tint::DarkGrey, Weight::Regular)
    } else if row.kind == RowKind::Total {
        (
            if col == 10 {
                load_style(row.level).0
            } else {
                Tint::Unchanged
            },
            Weight::Bold,
        )
    } else if col == 8 && row.sim {
        (Tint::Red, Weight::Bold)
    } else if col == 3 && row.redundant {
        (Tint::Magenta, Weight::Bold)
    } else if col == 10 {
        load_style(row.level)
    } else {
        (column_tint(col), Weight::Regular)
    }
}

/// Text brought to a width with spaces.
pub open spec fn padded(s: Seq<char>, width: nat, right: bool) -> Seq<char> {
    let fill = text::run(
        ' ',
        if width >= s.len() {
            (width - s.len()) as nat
        } else {
            0
        },
    );
    if right {
        fill + s
    } else {
        s + fill
    }
}

/// Whether `r` is text in a style, where text without one stays bare.
pub open spec fn is_set(r: Seq<char>, s: Seq<char>, style: (Tint, Weight)) -> bool {
    if style == (Tint::Unchanged, Weight::Regular) {
        r == s
    } else {
        is_styled(r, s, style.0, style.1)
    }
}

/// Whether `r` is a painted cell.
pub open spec fn is_cell(r: Seq<char>, row: report::RowView, col: int, width: nat) -> bool {
    is_set(r, padded(row.cells[col], width, flush_right(col)), cell_style(row, col))
}

/// Whether `r` is a table row: its cells with two spaces between them.
pub open spec fn is_row_line(r: Seq<char>, row: report::RowView, widths: Seq<usize>) -> bool {
    exists|cells: Seq<Seq<char>>|
        #![trigger text::joined(cells, "  "@)]
        {
            &&& cells.len() == N_COLUMNS
            &&& forall|i: int|
                0 <= i < N_COLUMNS ==> is_cell(#[trigger] cells[i], row, i, widths[i] as nat)
            &&& r == text::joined(cells, "  "@)
        }
}

/// Whether `r` is the heading.
pub open spec fn is_header_line(r: Seq<char>, widths: Seq<usize>) -> bool {
    exists|cells: Seq<Seq<char>>|
        #![trigger text::joined(cells, "  "@)]
        {
            &&& cells.len() == N_COLUMNS
            &&& forall|i: int|
                0 <= i < N_COLUMNS ==> is_styled(
                    #[trigger] cells[i],
                    padded(COLUMNS@[i]@, widths[i] as nat, flush_right(i)),
                    Tint::White,
                    Weight::Bold,
                )
            &&& r == text::joined(cells, "  "@)
        }
}

/// The width of a column: its heading, or its longest cell.
pub open spec fn column_width(rows: Seq<report::RowView>, col: int) -> nat
    decreases rows.len(),
{
    if rows.len() == 0 {
        COLUMNS@[col]@.len()
    } else {
        let front = column_width(rows.drop_last(), col);
        if rows.last().cells[col].len() > front {
            rows.last().cells[col].len()
        } else {
            front
        }
    }
}

/// The width of the first `n` columns.
pub open spec fn width_sum(widths: Seq<usize>) -> nat
    decreases widths.len(),
{
    if widths.len() == 0 {
        0
    } else {
        width_sum(widths.drop_last()) + widths.last() as nat
    }
}

/// The width of a table row: its columns and two spaces between each.
pub open spec fn rule_width(widths: Seq<usize>) -> nat {
    width_sum(widths) + (widths.len() - 1) as nat * 2
}

/// The widths of all columns.
pub open spec fn is_widths(widths: Seq<usize>, rows: Seq<report::RowView>) -> bool {
    &&& widths.len() == N_COLUMNS
    &&& forall|i: int| 0 <= i < N_COLUMNS ==> (#[trigger] widths[i]) as nat == column_width(rows, i)
}

/// The title in the top border.
pub open spec fn title(context: Seq<char>) -> Seq<char> {
    " "@ + SOFTWARE_NAME@ + " - "@ + context + " "@
}

/// The top border. A title too long for it is left out.
pub open spec fn top_line(context: Seq<char>, inner: nat) -> Seq<char> {
    let t = title(context);
    let size = vstd::utf8::encode_utf8(t).len();
    let total = inner + 2;
    if size + 4 >= total {
        "+"@ + text::run('-', total) + "+"@
    } else {
        "+-"@ + t + text::run('-', (total - size - 1) as nat) + "+"@
    }
}

/// A line between the side borders. Padding is counted on the visible text, so
/// the right-hand border always lines up.
pub open spec fn boxed(content: Seq<char>, inner: nat) -> Seq<char> {
    "| "@ + content + text::run(
        ' ',
        if inner >= visible(content) {
            (inner - visible(content)) as nat
        } else {
            0
        },
    ) + " |"@
}

/// The figures of the footer that are not whole numbers.
pub struct Figures {
    /// The byte total in human-readable units.
    pub bytes: String,
    /// The window in seconds.
    pub seconds: String,
    /// The window in milliseconds.
    pub millis: String,
}

/// The parts of the footer.
pub open spec fn footer_parts(r: Report, figures: Figures, extra: Seq<char>) -> Seq<Seq<char>> {
    let base = seq![
        "packets "@ + text::dec(r.packets as nat),
        "bytes "@ + figures.bytes@,
        "uptime "@ + fmt::hms(r.uptime_secs as nat),
        if r.is_session_total {
            "session total ("@ + figures.seconds@ + "s)"@
        } else {
            "window "@ + figures.millis@ + " ms"@
        },
    ];
    if extra.len() > 0 {
        base.push(extra)
    } else {
        base
    }
}

/// Whether `f` is the footer.
pub open spec fn is_footer(f: Seq<char>, r: Report, figures: Figures, extra: Seq<char>) -> bool {
    is_styled(
        f,
        text::joined(footer_parts(r, figures, extra), "  "@),
        Tint::DarkGrey,
        Weight::Regular,
    )
}

/// The larger of two numbers.
pub open spec fn greater(a: nat, b: nat) -> nat {
    if a >= b {
        a
    } else {
        b
    }
}

/// The width inside the borders of a panel with a table so wide: what the table
/// and the footer need, and the terminal's width where there is more.
pub open spec fn inner_for(table_width: nat, footer: Seq<char>, width: nat) -> nat {
    greater(
        greater(greater(table_width, visible(footer)), 40),
        if width >= 4 {
            (width - 4) as nat
        } else {
            0
        },
    )
}

/// The width inside the borders of a panel with the given columns.
pub open spec fn inner_width(widths: Seq<usize>, footer: Seq<char>, width: nat) -> nat {
    inner_for(rule_width(widths), footer, width)
}

/// The body lines for the first `n` rows: each row's line, and a rule that sets
/// the grand total apart from the rows above it.
pub open spec fn body_lines(
    rows: Seq<report::RowView>,
    lines: Seq<Seq<char>>,
    inner: nat,
    n: int,
) -> Seq<Seq<char>>
    decreases n,
{
    if n <= 0 {
        Seq::empty()
    } else {
        let above = body_lines(rows, lines, inner, n - 1);
        (if rows[n - 1].kind == RowKind::Total && n > 1 {
            above.push(boxed(text::run('-', inner), inner))
        } else {
            above
        }).push(boxed(lines[n - 1], inner))
    }
}

/// What varies between terminals in a panel: its styled lines.
pub ghost struct Painted {
    pub header: Seq<char>,
    pub rows: Seq<Seq<char>>,
    pub footer: Seq<char>,
}

/// Whether the styled lines are those of a report.
pub open spec fn is_painted(
    p: Painted,
    r: Report,
    figures: Figures,
    extra: Seq<char>,
    widths: Seq<usize>,
) -> bool {
    let rows = report::rows_view(r.rows@);
    &&& is_header_line(p.header, widths)
    &&& is_footer(p.footer, r, figures, extra)
    &&& p.rows.len() == rows.len()
    &&& forall|i: int| 0 <= i < rows.len() ==> is_row_line(#[trigger] p.rows[i], rows[i], widths)
}

/// The lines of the whole panel.
pub open spec fn panel_lines(
    p: Painted,
    rows: Seq<report::RowView>,
    context: Seq<char>,
    inner: nat,
) -> Seq<Seq<char>> {
    seq![
        top_line(context, inner),
        boxed(p.header, inner),
        boxed(text::run('-', inner), inner),
    ] + body_lines(rows, p.rows, inner, rows.len() as int) + seq![
        boxed(Seq::empty(), inner),
        boxed(p.footer, inner),
        "+"@ + text::run('-', inner + 2) + "+"@,
    ]
}

/// Whether `lines` is the panel of a report.
pub open spec fn is_panel(
    lines: Seq<Seq<char>>,
    p: Painted,
    r: Report,
    context: Seq<char>,
    extra: Seq<char>,
    figures: Figures,
    width: nat,
    widths: Seq<usize>,
) -> bool {
    &&& is_widths(widths, report::rows_view(r.rows@))
    &&& is_painted(p, r, figures, extra, widths)
    &&& lines == panel_lines(
        p,
        report::rows_view(r.rows@),
        context,
        inner_width(widths, p.footer, width),
    )
}

// ---- The panel ----------------------------------------------------------------------------

/// Whether the widths of all columns add up without running over.
pub open spec fn widths_fit(rows: Seq<report::RowView>) -> bool {
    forall|widths: Seq<usize>|
        #[trigger] is_widths(widths, rows) ==> rule_width(widths) <= usize::MAX
}

/// Whether the widths of all columns add up without running over.
pub fn has_width(r: &Report) -> (b: bool)
    ensures
        b == widths_fit(report::rows_view(r.rows@)),
{
    let widths: Vec<usize> = column_widths(r);
    let mut sum: usize = 20;
    let mut i: usize = 0;
    proof {
        lemma_widths_unique(report::rows_view(r.rows@), widths@);
    }
    while i < widths.len()
        invariant
            i <= widths@.len() == N_COLUMNS,
            sum == 20 + width_sum(widths@.take(i as int)),
            is_widths(widths@, report::rows_view(r.rows@)),
        decreases widths@.len() - i,
    {
        assert(widths@.take(i + 1).drop_last() =~= widths@.take(i as int));
        if widths[i] > usize::MAX - sum {
            proof {
                lemma_width_sum_grows(widths@, i + 1);
                assert(rule_width(widths@) > usize::MAX);
            }
            return false;
        }
        sum = sum + widths[i];
        i += 1;
    }
    assert(widths@.take(i as int) =~= widths@);
    true
}

proof fn lemma_width_sum_grows(widths: Seq<usize>, n: int)
    requires
        0 <= n <= widths.len(),
    ensures
        width_sum(widths.take(n)) <= width_sum(widths),
    decreases widths.len() - n,
{
    if n < widths.len() {
        lemma_width_sum_grows(widths, n + 1);
        assert(widths.take(n + 1).drop_last() =~= widths.take(n));
    } else {
        assert(widths.take(n) =~= widths);
    }
}

/// A report has one list of column widths.
proof fn lemma_widths_unique(rows: Seq<report::RowView>, a: Seq<usize>)
    requires
        is_widths(a, rows),
    ensures
        forall|b: Seq<usize>| #[trigger] is_widths(b, rows) ==> a == b,
{
    assert forall|b: Seq<usize>| #[trigger] is_widths(b, rows) implies a == b by {
        assert forall|i: int| 0 <= i < N_COLUMNS implies a[i] == b[i] by {
            assert(a[i] as nat == column_width(rows, i));
            assert(b[i] as nat == column_width(rows, i));
        }
        assert(a =~= b);
    }
}

fn rule_len(widths: &Vec<usize>) -> (r: usize)
    requires
        widths@.len() == N_COLUMNS,
        rule_width(widths@) <= usize::MAX,
    ensures
        r == rule_width(widths@),
{
    let mut sum: usize = (widths.len() - 1) * 2;
    let mut i: usize = 0;
    while i < widths.len()
        invariant
            i <= widths@.len() == N_COLUMNS,
            rule_width(widths@) <= usize::MAX,
            sum == 20 + width_sum(widths@.take(i as int)),
        decreases widths@.len() - i,
    {
        proof {
            assert(widths@.take(i + 1).drop_last() =~= widths@.take(i as int));
            lemma_width_sum_grows(widths@, i + 1);
        }
        sum = sum + widths[i];
        i += 1;
    }
    assert(widths@.take(i as int) =~= widths@);
    sum
}

fn column_widths(r: &Report) -> (widths: Vec<usize>)
    ensures
        is_widths(widths@, report::rows_view(r.rows@)),
{
    let ghost rows = report::rows_view(r.rows@);
    let mut widths: Vec<usize> = Vec::new();
    let mut c: usize = 0;
    while c < N_COLUMNS
        invariant
            c <= N_COLUMNS,
            widths@.len() == c,
            rows == report::rows_view(r.rows@),
            forall|i: int| 0 <= i < c ==> (#[trigger] widths@[i]) as nat == column_width(rows, i),
        decreases N_COLUMNS - c,
    {
        let mut width: usize = COLUMNS[c].unicode_len();
        let mut i: usize = 0;
        while i < r.rows.len()
            invariant
                i <= r.rows@.len(),
                c < N_COLUMNS,
                rows == report::rows_view(r.rows@),
                width == column_width(rows.take(i as int), c as int),
            decreases r.rows@.len() - i,
        {
            let len: usize = r.rows[i].cells[c].as_str().unicode_len();
            assert(rows.take(i + 1).drop_last() =~= rows.take(i as int));
            assert(rows.take(i + 1).last() == r.rows@[i as int]@);
            if len > width {
                width = len;
            }
            i += 1;
        }
        assert(rows.take(i as int) =~= rows);
        widths.push(width);
        c += 1;
    }
    widths
}

fn top_border(context: &str, inner: usize) -> (r: String)
    ensures
        r@ == top_line(context@, inner as nat),
{
    let mut t: String = " ".to_owned();
    t.append(SOFTWARE_NAME);
    t.append(" - ");
    t.append(context);
    t.append(" ");
    let size: usize = t.as_str().as_bytes().len();
    if inner <= 2 || size >= inner - 2 {
        let mut out: String = "+".to_owned();
        push_run(&mut out, '-', inner);
        out.push('-');
        out.push('-');
        out.append("+");
        assert(out@ =~= "+"@ + text::run('-', (inner + 2) as nat) + "+"@);
        return out;
    }
    let mut out: String = "+-".to_owned();
    out.append(t.as_str());
    push_run(&mut out, '-', inner - size);
    out.push('-');
    out.append("+");
    assert(out@ =~= top_line(context@, inner as nat));
    out
}

fn bordered(content: &str, inner: usize) -> (r: String)
    ensures
        r@ == boxed(content@, inner as nat),
{
    let used: usize = visible_len(content);
    let fill: usize = if inner >= used {
        inner - used
    } else {
        0
    };
    let mut out: String = "| ".to_owned();
    out.append(content);
    push_run(&mut out, ' ', fill);
    out.append(" |");
    out
}

fn pad(s: &str, width: usize, right: bool) -> (r: String)
    ensures
        r@ == padded(s@, width as nat, right),
{
    let len: usize = s.unicode_len();
    let fill: usize = if width >= len {
        width - len
    } else {
        0
    };
    if right {
        let mut out: String = String::new();
        push_run(&mut out, ' ', fill);
        out.append(s);
        assert(out@ =~= padded(s@, width as nat, right));
        out
    } else {
        let mut out: String = s.to_owned();
        push_run(&mut out, ' ', fill);
        out
    }
}

fn right_aligned(col: usize) -> (r: bool)
    ensures
        r == flush_right(col as int),
{
    col == 6 || col == 7 || col == 9 || col == 10
}

fn level_style(level: LoadLevel) -> (r: (Tint, Weight))
    ensures
        r == load_style(level),
{
    match level {
        LoadLevel::Critical => (Tint::Red, Weight::Bold),
        LoadLevel::Warn => (Tint::Yellow, Weight::Bold),
        LoadLevel::Normal => (Tint::Unchanged, Weight::Regular),
    }
}

fn tint_of(col: usize) -> (r: Tint)
    ensures
        r == column_tint(col as int),
{
    if col == 0 || col == 7 {
        Tint::Cyan
    } else if col == 1 {
        Tint::Yellow
    } else if col == 2 {
        Tint::Blue
    } else if col == 3 {
        Tint::Magenta
    } else if col == 4 {
        Tint::Green
    } else {
        Tint::Unchanged
    }
}

/// The style of a cell.
pub fn style_of(row: &Row, col: usize) -> (r: (Tint, Weight))
    ensures
        r == cell_style(row@, col as int),
{
    // Subtotals and idle rows are structurally secondary; keeping them dim
    // stops them competing with the live measurements they summarise.
    if row.kind == RowKind::Subtotal || row.kind == RowKind::Idle {
        return (Tint::DarkGrey, Weight::Regular);
    }
    if row.kind == RowKind::Total {
        let (tint, _) = level_style(row.load_level());
        return if col == 10 {
            (tint, Weight::Bold)
        } else {
            (Tint::Unchanged, Weight::Bold)
        };
    }
    if col == 8 && row.sim {
        return (Tint::Red, Weight::Bold);
    }
    if col == 3 && row.redundant {
        return (Tint::Magenta, Weight::Bold);
    }
    if col == 10 {
        return level_style(row.load_level());
    }
    (tint_of(col), Weight::Regular)
}

fn paint(row: &Row, col: usize, width: usize) -> (r: String)
    requires
        col < N_COLUMNS,
    ensures
        is_cell(r@, row@, col as int, width as nat),
{
    let s: String = pad(row.cells[col].as_str(), width, right_aligned(col));
    let (tint, weight) = style_of(row, col);
    if tint == Tint::Unchanged && weight == Weight::Regular {
        s
    } else {
        styled(s.as_str(), tint, weight)
    }
}

fn header_line(widths: &Vec<usize>) -> (r: String)
    requires
        widths@.len() == N_COLUMNS,
    ensures
        is_header_line(r@, widths@),
{
    let mut cells: Vec<String> = Vec::new();
    let mut i: usize = 0;
    while i < N_COLUMNS
        invariant
            i <= N_COLUMNS == widths@.len(),
            cells@.len() == i,
            forall|j: int|
                0 <= j < i ==> is_styled(
                    #[trigger] text::texts(cells@)[j],
                    padded(COLUMNS@[j]@, widths@[j] as nat, flush_right(j)),
                    Tint::White,
                    Weight::Bold,
                ),
        decreases N_COLUMNS - i,
    {
        let s: String = pad(COLUMNS[i], widths[i], right_aligned(i));
        let ghost before = text::texts(cells@);
        let cell: String = styled(s.as_str(), Tint::White, Weight::Bold);
        cells.push(cell);
        assert forall|j: int| 0 <= j < i + 1 implies is_styled(
            #[trigger] text::texts(cells@)[j],
            padded(COLUMNS@[j]@, widths@[j] as nat, flush_right(j)),
            Tint::White,
            Weight::Bold,
        ) by {
            if j < i {
                assert(text::texts(cells@)[j] == before[j]);
            }
        }
        i += 1;
    }
    join_strings(&cells, "  ")
}

fn row_line(row: &Row, widths: &Vec<usize>) -> (r: String)
    requires
        widths@.len() == N_COLUMNS,
    ensures
        is_row_line(r@, row@, widths@),
{
    let mut cells: Vec<String> = Vec::new();
    let mut i: usize = 0;
    while i < N_COLUMNS
        invariant
            i <= N_COLUMNS == widths@.len(),
            cells@.len() == i,
            forall|j: int|
                0 <= j < i ==> is_cell(
                    #[trigger] text::texts(cells@)[j],
                    row@,
                    j,
                    widths@[j] as nat,
                ),
        decreases N_COLUMNS - i,
    {
        let ghost before = text::texts(cells@);
        let cell: String = paint(row, i, widths[i]);
        cells.push(cell);
        assert forall|j: int| 0 <= j < i + 1 implies is_cell(
            #[trigger] text::texts(cells@)[j],
            row@,
            j,
            widths@[j] as nat,
        ) by {
            if j < i {
                assert(text::texts(cells@)[j] == before[j]);
            }
        }
        i += 1;
    }
    join_strings(&cells, "  ")
}

/// The footer: totals, uptime, what the figures cover, and the filter note.
pub fn footer_line(r: &Report, figures: &Figures, extra: &str) -> (f: String)
    ensures
        is_footer(f@, *r, *figures, extra@),
{
    let mut parts: Vec<String> = Vec::new();
    assert(text::texts(parts@) =~= Seq::empty());
    let mut packets: String = "packets ".to_owned();
    packets.append(decimal(r.packets).as_str());
    parts.push(packets);
    let mut bytes: String = "bytes ".to_owned();
    bytes.append(figures.bytes.as_str());
    parts.push(bytes);
    let mut uptime: String = "uptime ".to_owned();
    uptime.append(fmt_hms(r.uptime_secs).as_str());
    parts.push(uptime);
    if r.is_session_total {
        let mut total: String = "session total (".to_owned();
        total.append(figures.seconds.as_str());
        total.append("s)");
        parts.push(total);
    } else {
        let mut window: String = "window ".to_owned();
        window.append(figures.millis.as_str());
        window.append(" ms");
        parts.push(window);
    }
    if !extra.is_empty() {
        parts.push(extra.to_owned());
    }
    assert(text::texts(parts@) =~= footer_parts(*r, *figures, extra@));
    let line: String = join_strings(&parts, "  ");
    styled(line.as_str(), Tint::DarkGrey, Weight::Regular)
}

fn at_least(a: usize, b: usize) -> (r: usize)
    ensures
        r == greater(a as nat, b as nat),
{
    if a >= b {
        a
    } else {
        b
    }
}

/// The panel around lines as a terminal shows them: the header, one line for
/// each row of the report, and the footer.
pub fn panel(
    r: &Report,
    title_context: &str,
    header: &str,
    rows: &Vec<String>,
    footer: &str,
    table_width: usize,
    width: usize,
) -> (lines: Vec<String>)
    requires
        rows@.len() == r.rows@.len(),
    ensures
        text::texts(lines@) == panel_lines(
            (Painted { header: header@, rows: text::texts(rows@), footer: footer@ }),
            report::rows_view(r.rows@),
            title_context@,
            inner_for(table_width as nat, footer@, width as nat),
        ),
{
    let ghost shown = report::rows_view(r.rows@);
    let ghost painted = text::texts(rows@);
    // The table's own width is the floor: narrowing the box below it would
    // push cells past the right border rather than make anything fit. A wider
    // terminal simply expands the panel to fill it.
    let content: usize = at_least(at_least(table_width, visible_len(footer)), 40);
    let inner: usize = at_least(
        content,
        if width >= 4 {
            width - 4
        } else {
            0
        },
    );
    let rule: String = bordered(text::repeated('-', inner).as_str(), inner);

    let mut lines: Vec<String> = Vec::new();
    assert(text::texts(lines@) =~= Seq::empty());
    lines.push(top_border(title_context, inner));
    lines.push(bordered(header, inner));
    lines.push(rule.clone());
    let ghost top = seq![
        top_line(title_context@, inner as nat),
        boxed(header@, inner as nat),
        boxed(text::run('-', inner as nat), inner as nat),
    ];
    assert(text::texts(lines@) =~= top);
    let mut i: usize = 0;
    assert(top + body_lines(shown, painted, inner as nat, 0) =~= top);
    while i < r.rows.len()
        invariant
            i <= r.rows@.len() == rows@.len(),
            shown == report::rows_view(r.rows@),
            painted == text::texts(rows@),
            rule@ == boxed(text::run('-', inner as nat), inner as nat),
            text::texts(lines@) == top + body_lines(shown, painted, inner as nat, i as int),
        decreases r.rows@.len() - i,
    {
        // Set the grand total apart from the protocol rows above it.
        if r.rows[i].kind == RowKind::Total && i > 0 {
            lines.push(rule.clone());
        }
        lines.push(bordered(rows[i].as_str(), inner));
        assert(shown[i as int].kind == r.rows@[i as int].kind);
        assert(painted[i as int] == rows@[i as int]@);
        assert(text::texts(lines@) =~= top + body_lines(shown, painted, inner as nat, i + 1));
        i += 1;
    }
    lines.push(bordered("", inner));
    lines.push(bordered(footer, inner));
    let mut bottom: String = "+".to_owned();
    push_run(&mut bottom, '-', inner);
    bottom.push('-');
    bottom.push('-');
    bottom.append("+");
    assert(bottom@ =~= "+"@ + text::run('-', (inner + 2) as nat) + "+"@);
    lines.push(bottom);
    proof {
        reveal_strlit("");
        assert(""@ =~= Seq::<char>::empty());
        let p = Painted { header: header@, rows: painted, footer: footer@ };
        assert(text::texts(lines@) =~= panel_lines(p, shown, title_context@, inner as nat));
    }
    lines
}

/// Render the full panel as a list of lines, ready to print.
pub fn render(
    r: &Report,
    title_context: &str,
    footer_extra: &str,
    figures: &Figures,
    width: usize,
) -> (lines: Vec<String>)
    requires
        widths_fit(report::rows_view(r.rows@)),
    ensures
        exists|p: Painted, widths: Seq<usize>| #[trigger]
            is_panel(
                text::texts(lines@),
                p,
                *r,
                title_context@,
                footer_extra@,
                *figures,
                width as nat,
                widths,
            ),
{
    let ghost shown = report::rows_view(r.rows@);
    let widths: Vec<usize> = column_widths(r);
    assert(is_widths(widths@, shown));
    let header: String = header_line(&widths);
    let mut rows: Vec<String> = Vec::new();
    let mut i: usize = 0;
    while i < r.rows.len()
        invariant
            i <= r.rows@.len(),
            widths@.len() == N_COLUMNS,
            shown == report::rows_view(r.rows@),
            rows@.len() == i,
            forall|j: int| 0 <= j < i ==> is_row_line((#[trigger] rows@[j])@, shown[j], widths@),
        decreases r.rows@.len() - i,
    {
        rows.push(row_line(&r.rows[i], &widths));
        i += 1;
    }
    let footer: String = footer_line(r, figures, footer_extra);
    let lines: Vec<String> = panel(
        r,
        title_context,
        header.as_str(),
        &rows,
        footer.as_str(),
        rule_len(&widths),
        width,
    );
    proof {
        let p = Painted { header: header@, rows: text::texts(rows@), footer: footer@ };
        assert forall|j: int| 0 <= j < shown.len() implies is_row_line(
            #[trigger] p.rows[j],
            shown[j],
            widths@,
        ) by {
            assert(p.rows[j] == rows@[j]@);
        }
        assert(is_painted(p, *r, *figures, footer_extra@, widths@));
        assert(is_panel(
            text::texts(lines@),
            p,
            *r,
            title_context@,
            footer_extra@,
            *figures,
            width as nat,
            widths@,
        ));
    }
    lines
}

} // verus!
