use arid::error::{ErrorKind, OperationalError};
use arid::report::{Finding, FindingContext, FindingDistribution, FindingScope, Location, Report};
use arid::summary::{build_summary, Summary};
use arid::text::{render_text_with_summary, Style, SummaryPercents, TextStyles};
use clap::builder::styling::{Ansi256Color, AnsiColor};

fn style(style: clap::builder::styling::Style) -> Style {
    Style { open: format!("{style}"), close: format!("{style:#}") }
}

fn colored() -> TextStyles {
    TextStyles {
        diagnostic: style(AnsiColor::Yellow.on_default().bold()),
        problem: style(AnsiColor::Red.on_default().bold()),
        success: style(AnsiColor::Green.on_default().bold()),
        heading: style(clap::builder::styling::Style::new().bold()),
        classification: style(AnsiColor::Magenta.on_default().bold()),
        distribution: style(AnsiColor::Blue.on_default().bold()),
        group: style(Ansi256Color(208).on_default().bold()),
        path: style(AnsiColor::Cyan.on_default().bold()),
        location: style(AnsiColor::Cyan.on_default()),
        source_gutter: style(clap::builder::styling::Style::new().dimmed()),
    }
}

fn percentage(part: u64, total: u64) -> String {
    let value = if total == 0 { 0.0 } else { part as f64 / total as f64 * 100.0 };
    format!("{value:.2}")
}

fn percents(report: &Report, summary: &Summary) -> SummaryPercents {
    let groups = summary.duplicate_groups;
    SummaryPercents {
        files_with_duplicates: percentage(summary.files_with_duplicates, summary.files),
        duplication: percentage(report.duplicate_lines, report.analyzed_lines),
        executable: percentage(summary.context.executable, groups),
        declarative: percentage(summary.context.declarative, groups),
        mixed_context: percentage(summary.context.mixed, groups),
        function: percentage(summary.scope.function, groups),
        module: percentage(summary.scope.module, groups),
        class: percentage(summary.scope.class, groups),
        mixed_scope: percentage(summary.scope.mixed, groups),
        cross_file: percentage(summary.distribution.cross_file, groups),
        same_file: percentage(summary.distribution.same_file, groups),
        mixed_distribution: percentage(summary.distribution.mixed, groups),
    }
}

fn render_with(report: &Report, color: bool, complete: bool, errors: &Vec<OperationalError>) -> String {
    let summary = build_summary(report);
    let styles = if color { colored() } else { TextStyles::plain() };
    render_text_with_summary(report, &summary, &styles, &percents(report, &summary), complete, errors)
}

fn render_text(report: &Report, color: bool) -> String {
    render_with(report, color, true, &Vec::new())
}

fn location(path: &str, start_line: u64) -> Location {
    Location {
        path: path.to_owned(),
        start_line,
        end_line: start_line + 1,
        source: Some("alpha()\nbeta()".to_owned()),
    }
}

fn report() -> Report {
    Report {
        version: 3,
        files: 2,
        source_lines: 4,
        analyzed_lines: 4,
        duplicate_groups: 1,
        duplicate_lines: 2,
        findings: vec![Finding {
            code: "DUP001".to_owned(),
            lines: 2,
            context: FindingContext::Executable,
            scope: FindingScope::Function,
            occurrences: 2,
            files: 2,
            distribution: FindingDistribution::CrossFile,
            locations: vec![location("a.py", 1), location("b.py", 3)],
        }],
    }
}

fn strip_ansi(value: &str) -> String {
    let mut output = String::new();
    let mut chars = value.chars().peekable();
    while let Some(character) = chars.next() {
        if character == '\u{1b}' && chars.peek() == Some(&'[') {
            chars.next();
            for code in chars.by_ref() {
                if code == 'm' {
                    break;
                }
            }
        } else {
            output.push(character);
        }
    }
    output
}

#[test]
fn plain_text_contains_rich_summary_breakdown_and_hotspots() {
    let rendered = render_text(&report(), false);

    assert!(rendered.contains("DUP001 2 duplicated lines"));
    assert!(rendered.contains("Summary\n\n┌"));
    assert!(rendered.contains("│ Files analyzed"));
    assert!(rendered.contains("│ Files with duplicates"));
    assert!(rendered.contains("2 (100.00%)"));
    assert!(rendered.contains("│ Duplicate groups"));
    assert!(rendered.contains("│ Occurrences"));
    assert!(rendered.contains("Breakdown\n\n┌"));
    assert!(rendered.contains("│ Context"));
    assert!(rendered.contains("executable"));
    assert!(rendered.contains("│ Scope"));
    assert!(rendered.contains("function"));
    assert!(rendered.contains("│ Distribution"));
    assert!(rendered.contains("cross-file"));
    assert!(rendered.contains("Hotspots\n\n┌"));
    assert!(rendered.contains("a.py"));
    assert!(rendered.contains("b.py"));
    assert!(!rendered.contains("Found 1 duplicate group."));
    assert!(!rendered.contains('\u{1b}'));
}

#[test]
fn colored_text_uses_semantic_styles_for_findings_and_summary() {
    let styles = colored();
    let rendered = render_text(&report(), true);
    let marked = |style: &Style, text: &str| format!("{}{}{}", style.open, text, style.close);

    assert!(rendered.contains(&marked(&styles.diagnostic, "DUP001")));
    assert!(rendered.contains(&marked(&styles.problem, "2 duplicated lines")));
    assert!(rendered.contains(&marked(&styles.classification, "executable")));
    assert!(rendered.contains(&marked(&styles.distribution, "cross-file")));
    assert!(rendered.contains(&marked(&styles.group, "1")));
    assert!(rendered.contains(&marked(&styles.path, "a.py")));
    assert!(rendered.contains(&marked(&styles.problem, "50.00%")));
}

#[test]
fn colored_and_plain_output_have_identical_visible_text() {
    let plain = render_text(&report(), false);
    let colored = render_text(&report(), true);

    assert_eq!(strip_ansi(&colored), plain);
}

#[test]
fn mixed_context_and_scope_use_classification_style() {
    let styles = colored();
    let mut report = report();
    report.findings[0].context = FindingContext::Mixed;
    report.findings[0].scope = FindingScope::Mixed;

    let rendered = render_text(&report, true);
    let mixed = format!("{}mixed{}", styles.classification.open, styles.classification.close);

    assert!(rendered.matches(&mixed).count() >= 2);
}

#[test]
fn hybrid_distribution_uses_distribution_style() {
    let styles = colored();
    let mut report = report();
    report.findings[0].distribution = FindingDistribution::Mixed;

    let rendered = render_text(&report, true);

    assert!(rendered.contains(&format!("{}(mixed){}", styles.distribution.open, styles.distribution.close)));
    assert!(rendered.contains(&format!("{}mixed{}", styles.distribution.open, styles.distribution.close)));
}

#[test]
fn zero_duplication_is_concise_and_uses_success_style() {
    let styles = colored();
    let report = Report {
        version: 3,
        files: 1,
        source_lines: 1,
        analyzed_lines: 1,
        duplicate_groups: 0,
        duplicate_lines: 0,
        findings: Vec::new(),
    };

    let rendered = render_text(&report, true);

    assert!(rendered.contains(&format!("{}No duplicate code found.{}", styles.success.open, styles.success.close)));
    assert!(rendered.contains(&format!("{}0{}", styles.success.open, styles.success.close)));
    assert!(rendered.contains(&format!("{}0.00%{}", styles.success.open, styles.success.close)));
    assert!(!rendered.contains("Breakdown"));
    assert!(!rendered.contains("Hotspots"));
}

#[test]
fn incomplete_summary_is_explicit() {
    let report = report();
    let errors = vec![OperationalError::new(ErrorKind::Parse, "broken source".to_owned())];

    let rendered = render_with(&report, false, false, &errors);

    assert!(rendered.contains("Scan incomplete: 1 source processing error."));
    assert!(rendered.contains("Summary"));
}

#[test]
fn unicode_hotspot_paths_remain_visible() {
    let mut report = report();
    report.findings[0].locations[0].path = "src/café.py".to_owned();

    let rendered = render_text(&report, false);

    assert!(rendered.contains("src/café.py"));
}

#[test]
fn overview_table_is_drawn_exactly() {
    let report = Report {
        version: 3,
        files: 1,
        source_lines: 1,
        analyzed_lines: 1,
        duplicate_groups: 0,
        duplicate_lines: 0,
        findings: Vec::new(),
    };

    let rendered = render_text(&report, false);

    let left = "─".repeat(23);
    let right = "─".repeat(11);
    let expected = format!(
        "No duplicate code found.\n\nSummary\n\n\
┌{left}┬{right}┐\n\
│ Files analyzed        │         1 │\n\
│ Files with duplicates │ 0 (0.00%) │\n\
│ Source lines          │         1 │\n\
│ Analyzed lines        │         1 │\n\
│ Duplicate groups      │         0 │\n\
│ Occurrences           │         0 │\n\
│ Duplicate lines       │         0 │\n\
│ Duplication           │     0.00% │\n\
└{left}┴{right}┘\n"
    );
    assert_eq!(rendered, expected);
}

#[test]
fn source_lines_are_numbered_behind_the_gutter() {
    let rendered = render_text(&report(), false);

    assert!(rendered.contains("  a.py:1-2\n       1 | alpha()\n       2 | beta()\n"));
    assert!(rendered.contains("  b.py:3-4\n       3 | alpha()\n       4 | beta()\n"));
}

#[test]
fn large_counts_use_thousands_separators_in_tables() {
    let mut report = report();
    report.source_lines = 1_234_567;

    let rendered = render_text(&report, false);

    assert!(rendered.contains("│ Source lines          │   1,234,567 │\n"));
}
