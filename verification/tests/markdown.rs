use arid::error::{ErrorKind, OperationalError};
use arid::markdown::{longest_backtick_run, render_markdown};
use arid::report::{Finding, FindingContext, FindingDistribution, FindingScope, Location, Report};

fn report(show_source: bool) -> Report {
    let source = || if show_source { Some("alpha()\nbeta()".to_owned()) } else { None };
    Report {
        version: 3,
        files: 2,
        source_lines: 4,
        analyzed_lines: 4,
        duplicate_groups: 1,
        duplicate_lines: 2,
        findings: vec![Finding {
            code: "DUP001".to_owned(),
            lines: 2,
            context: FindingContext::Executable,
            scope: FindingScope::Function,
            occurrences: 2,
            files: 2,
            distribution: FindingDistribution::CrossFile,
            locations: vec![
                Location { path: "a.py".to_owned(), start_line: 1, end_line: 2, source: source() },
                Location { path: "b.py".to_owned(), start_line: 3, end_line: 4, source: source() },
            ],
        }],
    }
}

fn empty_report(analyzed_lines: u64) -> Report {
    Report {
        version: 3,
        files: 1,
        source_lines: 2,
        analyzed_lines,
        duplicate_groups: 0,
        duplicate_lines: 0,
        findings: Vec::new(),
    }
}

#[test]
fn renders_finding_metadata_locations_and_summary() {
    let rendered = render_markdown(&report(false), "50.00", true, &Vec::new());

    assert!(rendered.starts_with("# Arid duplicate-code report\n\n"));
    assert!(rendered.contains("## `DUP001` — 2 duplicated lines"));
    assert!(rendered.contains("**Context:** executable"));
    assert!(rendered.contains("**Scope:** function"));
    assert!(rendered.contains("**Occurrences:** 2 across 2 files _(cross-file)_"));
    assert!(rendered.contains("### `a.py:1-2`"));
    assert!(rendered.contains("### `b.py:3-4`"));
    assert!(rendered.contains("- **Duplicate groups:** 1"));
    assert!(rendered.contains("- **Duplicate lines:** 2"));
    assert!(rendered.contains("- **Duplication:** 50.00%"));
    assert!(!rendered.contains('\u{1b}'));
}

#[test]
fn source_uses_raw_python_without_line_gutters() {
    let rendered = render_markdown(&report(true), "50.00", true, &Vec::new());

    assert!(rendered.contains("```python\nalpha()\nbeta()\n```"));
    assert!(!rendered.contains("1 |"));
    assert!(!rendered.contains("3 |"));
}

#[test]
fn inline_code_outgrows_backticks_in_location() {
    let mut report = report(false);
    report.findings[0].locations[0].path = "odd`name.py".to_owned();

    let rendered = render_markdown(&report, "50.00", true, &Vec::new());

    assert!(rendered.contains("### ``odd`name.py:1-2``"));
}

#[test]
fn source_fence_outgrows_backticks_in_source() {
    let mut report = report(true);
    report.findings[0].locations[0].source = Some("value = \"```\"".to_owned());

    let rendered = render_markdown(&report, "50.00", true, &Vec::new());

    assert!(rendered.contains("````python\nvalue = \"```\"\n````"));
}

#[test]
fn markdown_repeated_rendering_is_byte_identical() {
    let report = report(true);
    let first = render_markdown(&report, "50.00", true, &Vec::new());
    let second = render_markdown(&report, "50.00", true, &Vec::new());

    assert_eq!(first, second);
}

#[test]
fn renders_empty_report() {
    let rendered = render_markdown(&empty_report(2), "0.00", true, &Vec::new());

    assert!(rendered.contains("No duplicate code found."));
    assert!(rendered.contains("- **Duplicate groups:** 0"));
    assert!(rendered.contains("- **Duplication:** 0.00%"));
}

#[test]
fn incomplete_report_is_explicit_and_lists_errors() {
    let errors = vec![OperationalError::new(ErrorKind::Parse, "failed to parse source".to_owned())
        .with_project_path("project/broken.py", "project")];

    let rendered = render_markdown(&empty_report(0), "0.00", false, &errors);

    assert!(rendered.contains("> **Warning:** Scan incomplete. Results include only successfully processed source."));
    assert!(rendered.contains("## Processing errors"));
    assert!(rendered.contains("- `broken.py`: failed to parse source"));
    assert!(rendered.contains("No duplicate code found in successfully processed source."));
    assert!(!rendered.contains("\nNo duplicate code found.\n"));
}

#[test]
fn complete_markdown_document_is_exact() {
    let rendered = render_markdown(&report(true), "50.00", true, &Vec::new());
    assert_eq!(
        rendered,
        [
            "# Arid duplicate-code report\n\n",
            "## `DUP001` — 2 duplicated lines\n\n",
            "**Context:** executable  \n",
            "**Scope:** function  \n",
            "**Occurrences:** 2 across 2 files _(cross-file)_\n\n",
            "### `a.py:1-2`\n\n",
            "```python\nalpha()\nbeta()\n```\n\n",
            "### `b.py:3-4`\n\n",
            "```python\nalpha()\nbeta()\n```\n\n",
            "## Summary\n\n",
            "- **Files:** 2\n",
            "- **Source lines:** 4\n",
            "- **Analyzed lines:** 4\n",
            "- **Duplicate groups:** 1\n",
            "- **Duplicate lines:** 2\n",
            "- **Duplication:** 50.00%\n",
        ]
        .concat()
    );
}

#[test]
fn backtick_runs_are_measured() {
    assert_eq!(longest_backtick_run(""), 0);
    assert_eq!(longest_backtick_run("a`b``c`"), 2);
    assert_eq!(longest_backtick_run("```x"), 3);
    assert_eq!(longest_backtick_run("é`é"), 1);
}
