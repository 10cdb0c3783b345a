//! The terminal panel.
use nlm::classify::parse_frame;
use nlm::parse::{Protocol, ProtocolSet};
use nlm::report::{build_report, DisplayFilter, LoadLevel, Measure, Report, RowKind};
use nlm::stats::Stats;
use nlm::table::{footer_line, has_width, panel, render, style_of, visible_len, Figures, Tint, Weight};
use crossterm::style::{Color, Stylize};

fn sample_report() -> Report {
    let mut raw = vec![0xFFu8; 12];
    raw.extend_from_slice(&[0x88, 0xF7, 0x00, 0x00]);
    let frame = parse_frame(&raw);
    let mut s = Stats::new(0);
    s.record(&frame, 1000);
    s.rotate(1_000_000_000);
    let mut snap = s.snapshot(1_000_000_000);
    snap.window_ns = 1_000_000_000;
    let enabled = ProtocolSet::new();
    build_report(&snap, &enabled, &DisplayFilter::default(), |bytes: u64| Measure {
        rate: format!("{:.3} Kbit/s", bytes as f64 * 8.0 / 1000.0),
        load: "0.0080".to_string(),
        level: LoadLevel::Normal,
    })
}

fn figures() -> Figures {
    Figures { bytes: "1000.0 B".into(), seconds: "1".into(), millis: "1000".into() }
}

#[test]
fn every_line_is_the_same_visible_width() {
    let lines = render(&sample_report(), "eth0 @ 100 Mb/s", "", &figures(), 200);
    let widths: Vec<usize> = lines.iter().map(|l| visible_len(l)).collect();
    assert!(widths.windows(2).all(|w| w[0] == w[1]), "ragged panel: {widths:?}");
    assert_eq!(widths[0], 200);
}

#[test]
fn output_stays_ascii_for_legacy_windows_consoles() {
    let lines = render(&sample_report(), "eth0 @ 100 Mb/s", "filter vlan=11", &figures(), 200);
    for line in &lines {
        // Strip escapes, then require plain ASCII in what remains.
        let text: String = line.chars().filter(|c| !c.is_control()).collect();
        assert!(text.is_ascii(), "non-ASCII output would break a cp1252 console: {line}");
    }
}

#[test]
fn visible_length_ignores_colour_escapes() {
    let plain = "GOOSE";
    let coloured = plain.with(Color::Cyan).to_string();
    assert!(coloured.len() > plain.len());
    assert_eq!(visible_len(&coloured), 5);
}

#[test]
fn footer_reports_session_totals_distinctly() {
    let mut r = sample_report();
    r.is_session_total = false;
    assert!(footer_line(&r, &figures(), "").contains("window"));
    r.is_session_total = true;
    assert!(footer_line(&r, &figures(), "").contains("session total"));
}

/// A text without its escape sequences.
fn bare(s: &str) -> String {
    let mut out = String::new();
    let mut inside = false;
    for c in s.chars() {
        if inside {
            inside = c != 'm';
        } else if c == '\u{1b}' {
            inside = true;
        } else {
            out.push(c);
        }
    }
    out
}

#[test]
fn the_panel_is_framed() {
    let r = sample_report();
    assert!(has_width(&r));
    let lines: Vec<String> =
        render(&r, "eth0", "filter vlan=11", &figures(), 0).iter().map(|l| bare(l)).collect();
    let inner = lines[0].len() - 4;
    assert_eq!(lines.len(), 9);
    assert!(lines[0].starts_with("+- Network Load Monitor V2 - eth0 ---"));
    assert!(lines[1].starts_with("| Protocol  VLAN  CoS  Redundancy  AppID  SVID/GOID  "));
    assert_eq!(lines[2], format!("| {} |", "-".repeat(inner)));
    assert!(lines[3].starts_with("| Other "));
    assert_eq!(lines[4], lines[2]);
    assert!(lines[5].starts_with("| TOTAL "));
    assert_eq!(lines[6], format!("| {} |", " ".repeat(inner)));
    assert_eq!(
        lines[7].trim_end_matches('|').trim_end(),
        "| packets 1  bytes 1000.0 B  uptime 00:00:01  window 1000 ms  filter vlan=11"
    );
    assert_eq!(lines[8], format!("+{}+", "-".repeat(inner + 2)));
}

#[test]
fn a_title_too_long_is_left_out() {
    let long = "x".repeat(200);
    let lines = render(&sample_report(), &long, "", &figures(), 0);
    assert!(lines[0].chars().all(|c| c == '+' || c == '-'));
    assert_eq!(lines[0].len(), lines[8].len());
}

/// The styled texts are those that crossterm gives for the same styles.
#[test]
fn styles_are_those_of_the_terminal_library() {
    let r = sample_report();
    let lines = render(&r, "eth0", "", &figures(), 0);
    assert!(lines[1].contains(&"Protocol".with(Color::White).bold().to_string()));
    assert!(lines[3].contains(&"Other   ".with(Color::Cyan).to_string()));
    assert!(lines[5].contains(&"TOTAL   ".bold().to_string()));
    let footer = footer_line(&r, &figures(), "");
    assert_eq!(footer, bare(&footer).with(Color::DarkGrey).to_string());
    let text = bare(&footer);
    let coloured = format!("\u{1b}[38;5;8m{text}\u{1b}[39m");
    let without_colour = format!("\u{1b}[m{text}\u{1b}[m");
    assert!(footer == coloured || footer == without_colour);
    assert!(lines[5].contains("\u{1b}[1mTOTAL   \u{1b}[0m"));
}

#[test]
fn cells_are_styled_by_what_they_mean() {
    let mut row = sample_report().rows.remove(0);
    row.kind = RowKind::Detail;
    assert_eq!(style_of(&row, 0), (Tint::Cyan, Weight::Regular));
    assert_eq!(style_of(&row, 5), (Tint::Unchanged, Weight::Regular));
    assert_eq!(style_of(&row, 10), (Tint::Unchanged, Weight::Regular));
    row.level = LoadLevel::Warn;
    assert_eq!(style_of(&row, 10), (Tint::Yellow, Weight::Bold));
    row.level = LoadLevel::Critical;
    assert_eq!(style_of(&row, 10), (Tint::Red, Weight::Bold));
    row.sim = true;
    row.redundant = true;
    assert_eq!(style_of(&row, 8), (Tint::Red, Weight::Bold));
    assert_eq!(style_of(&row, 3), (Tint::Magenta, Weight::Bold));
    row.kind = RowKind::Total;
    assert_eq!(style_of(&row, 0), (Tint::Unchanged, Weight::Bold));
    assert_eq!(style_of(&row, 10), (Tint::Red, Weight::Bold));
    row.kind = RowKind::Idle;
    assert_eq!(style_of(&row, 8), (Tint::DarkGrey, Weight::Regular));
}

#[test]
fn no_frame_can_draw_on_the_terminal() {
    // A GOOSE frame whose control block reference is an escape sequence.
    let mut raw = vec![0xFFu8; 12];
    raw.extend_from_slice(&[0x88, 0xB8, 0x40, 0x41, 0x00, 0x20, 0x00, 0x00, 0x00, 0x00]);
    raw.extend_from_slice(&[0x61, 0x08, 0x80, 0x06, 0x1B, b'[', b'2', b'J', 0xC3, 0xA9]);
    let mut s = Stats::new(0);
    s.record(&parse_frame(&raw), 1000);
    s.rotate(1_000_000_000);
    let snap = s.snapshot(1_000_000_000);
    let mut enabled = ProtocolSet::new();
    enabled.insert(Protocol::Goose);
    let r = build_report(&snap, &enabled, &DisplayFilter::default(), |_: u64| Measure {
        rate: "8.000 Kbit/s".to_string(),
        load: "0.0080".to_string(),
        level: LoadLevel::Normal,
    });
    assert_eq!(r.rows[0].cells[5], ".[2J..");
    for row in &r.rows {
        for cell in &row.cells {
            assert!(cell.chars().all(|c| (' '..='~').contains(&c)), "{cell:?}");
        }
    }
}

#[test]
fn a_panel_is_framed_around_painted_lines() {
    let mut r = sample_report();
    let total = r.rows.pop().unwrap();
    assert_eq!(total.kind, RowKind::Total);
    let first = r.rows.remove(0);
    r.rows = vec![first, total];
    let rows = vec!["first".to_string(), "sum".to_string()];
    let got = panel(&r, "x", "head", &rows, "foot", 6, 0);
    let line = |s: &str| format!("| {s:<40} |");
    let rule = format!("| {} |", "-".repeat(40));
    assert!(got[0].starts_with("+- ") && got[0].ends_with("-+"));
    assert_eq!(
        got[1..],
        [
            line("head"),
            rule.clone(),
            line("first"),
            rule,
            line("sum"),
            line(""),
            line("foot"),
            format!("+{}+", "-".repeat(42)),
        ]
    );
    // No panel is narrower than 44 columns, and a wider terminal is filled.
    assert!(got.iter().all(|l| l.len() == 44));
    assert!(panel(&r, "x", "head", &rows, "foot", 6, 100).iter().all(|l| l.len() == 100));
    assert!(panel(&r, "x", "head", &rows, "foot", 60, 50).iter().all(|l| l.len() == 64));
}
