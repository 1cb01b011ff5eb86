use std::ops::Range;

use arid::corpus::build_corpus;
use arid::model::{
    DuplicateGroup, NormalizedLine, NormalizedSegment, Occurrence, PreparedFile, StructuralContext,
    StructuralScope,
};
use arid::outcome::ExitStatus;
use arid::report::{
    build_report, render_human, FindingContext, FindingDistribution, FindingScope, Location, ReportError,
    ReportOptions,
};
use arid::metrics::MetricsError;

fn prepared(path: &str, source: &str, normalized: &[(&str, u32, bool)]) -> PreparedFile {
    let mut normalized_source = String::new();
    let mut lines = Vec::new();

    for &(text, source_line, effective) in normalized {
        let start = normalized_source.len() as u32;
        normalized_source.push_str(text);
        let end = normalized_source.len() as u32;
        normalized_source.push('\n');

        lines.push(NormalizedLine {
            text_range: Range { start, end },
            source_line,
            effective,
            context: StructuralContext::Executable,
            scope: StructuralScope::Module,
        });
    }

    let line_count = lines.len() as u32;

    PreparedFile {
        path: path.to_owned(),
        source: source.to_owned(),
        normalized: normalized_source,
        lines,
        segments: if line_count == 0 {
            Vec::new()
        } else {
            vec![NormalizedSegment { start: 0, end: line_count }]
        },
    }
}

fn occurrence(file: u32, start: u32, length: u32) -> Occurrence {
    Occurrence { file, normalized_start: start, normalized_len: length }
}

#[test]
fn builds_physical_source_locations() {
    let corpus = build_corpus(vec![
        prepared("a.py", "alpha()\n# ignored\nbeta()\n", &[("alpha()", 0, true), ("beta()", 2, true)]),
        prepared("b.py", "alpha()\n# ignored\nbeta()\n", &[("alpha()", 0, true), ("beta()", 2, true)]),
    ])
    .unwrap();

    let groups = vec![DuplicateGroup {
        effective_lines: 2,
        normalized_len: 2,
        occurrences: vec![occurrence(0, 0, 2), occurrence(1, 0, 2)],
    }];

    let report = build_report(&corpus, &groups, &ReportOptions::default()).unwrap();

    assert_eq!(report.findings.len(), 1);

    assert_eq!(
        report.findings[0].locations,
        vec![
            Location { path: "a.py".to_owned(), start_line: 1, end_line: 3, source: None },
            Location { path: "b.py".to_owned(), start_line: 1, end_line: 3, source: None },
        ]
    );
}

#[test]
fn includes_original_source_when_requested() {
    let corpus = build_corpus(vec![
        prepared("a.py", "alpha()\n# ignored\nbeta()\n", &[("alpha()", 0, true), ("beta()", 2, true)]),
        prepared("b.py", "alpha()\n# ignored\nbeta()\n", &[("alpha()", 0, true), ("beta()", 2, true)]),
    ])
    .unwrap();

    let groups = vec![DuplicateGroup {
        effective_lines: 2,
        normalized_len: 2,
        occurrences: vec![occurrence(0, 0, 2), occurrence(1, 0, 2)],
    }];

    let report =
        build_report(&corpus, &groups, &ReportOptions { show_source: true, path_root: None }).unwrap();

    assert_eq!(report.findings[0].locations[0].source.as_deref(), Some("alpha()\n# ignored\nbeta()"));
}

#[test]
fn strips_configured_path_root() {
    let corpus = build_corpus(vec![
        prepared("/project/src/a.py", "alpha()\nbeta()\n", &[("alpha()", 0, true), ("beta()", 1, true)]),
        prepared("/project/src/b.py", "alpha()\nbeta()\n", &[("alpha()", 0, true), ("beta()", 1, true)]),
    ])
    .unwrap();

    let groups = vec![DuplicateGroup {
        effective_lines: 2,
        normalized_len: 2,
        occurrences: vec![occurrence(0, 0, 2), occurrence(1, 0, 2)],
    }];

    let report = build_report(
        &corpus,
        &groups,
        &ReportOptions { show_source: false, path_root: Some("/project".to_owned()) },
    )
    .unwrap();

    assert_eq!(report.findings[0].locations[0].path, "src/a.py");
}

#[test]
fn report_contains_duplication_metrics() {
    let common = [("alpha()", 0, true), ("beta()", 1, true)];

    let corpus = build_corpus(vec![
        prepared("a.py", "alpha()\nbeta()\n", &common),
        prepared("b.py", "alpha()\nbeta()\n", &common),
    ])
    .unwrap();

    let groups = vec![DuplicateGroup {
        effective_lines: 2,
        normalized_len: 2,
        occurrences: vec![occurrence(0, 0, 2), occurrence(1, 0, 2)],
    }];

    let report = build_report(&corpus, &groups, &ReportOptions::default()).unwrap();

    assert_eq!(report.version, 3);
    assert_eq!(report.files, 2);
    assert_eq!(report.source_lines, 4);
    assert_eq!(report.analyzed_lines, 4);
    assert_eq!(report.duplicate_groups, 1);
    assert_eq!(report.duplicate_lines, 2);
}

#[test]
fn human_output_matches_diagnostic_contract() {
    let common = [("alpha()", 0, true), ("beta()", 1, true)];

    let corpus = build_corpus(vec![
        prepared("a.py", "alpha()\nbeta()\n", &common),
        prepared("b.py", "alpha()\nbeta()\n", &common),
    ])
    .unwrap();

    let groups = vec![DuplicateGroup {
        effective_lines: 2,
        normalized_len: 2,
        occurrences: vec![occurrence(0, 0, 2), occurrence(1, 0, 2)],
    }];

    let report = build_report(&corpus, &groups, &ReportOptions::default()).unwrap();

    assert_eq!(
        render_human(&report, "50.00"),
        [
            "DUP001 2 duplicated lines\n",
            "Context: executable\n",
            "Scope: module\n",
            "Occurrences: 2 across 2 files (cross-file)\n",
            "\n",
            "  a.py:1-2\n",
            "  b.py:1-2\n",
            "\n",
            "Found 1 duplicate group.\n",
            "2 duplicate lines (50.00%).\n",
        ]
        .concat()
    );
}

#[test]
fn human_output_includes_numbered_source() {
    let common = [("alpha()", 0, true), ("beta()", 2, true)];

    let corpus = build_corpus(vec![
        prepared("a.py", "alpha()\n# ignored\nbeta()\n", &common),
        prepared("b.py", "alpha()\n# ignored\nbeta()\n", &common),
    ])
    .unwrap();

    let groups = vec![DuplicateGroup {
        effective_lines: 2,
        normalized_len: 2,
        occurrences: vec![occurrence(0, 0, 2), occurrence(1, 0, 2)],
    }];

    let report =
        build_report(&corpus, &groups, &ReportOptions { show_source: true, path_root: None }).unwrap();

    let rendered = render_human(&report, "50.00");

    assert!(rendered.contains(&["       1 | alpha()\n", "       2 | # ignored\n", "       3 | beta()"].concat()));
}

#[test]
fn finding_structure_is_mixed_across_different_occurrence_contexts() {
    let mut class_file = prepared("a.py", "value = 1\n", &[("value = 1", 0, true)]);
    class_file.lines[0].context = StructuralContext::Declarative;
    class_file.lines[0].scope = StructuralScope::Class;

    let mut function_file = prepared("b.py", "value = 1\n", &[("value = 1", 0, true)]);
    function_file.lines[0].context = StructuralContext::Executable;
    function_file.lines[0].scope = StructuralScope::Function;

    let corpus = build_corpus(vec![class_file, function_file]).unwrap();

    let groups = vec![DuplicateGroup {
        effective_lines: 1,
        normalized_len: 1,
        occurrences: vec![occurrence(0, 0, 1), occurrence(1, 0, 1)],
    }];

    let report = build_report(&corpus, &groups, &ReportOptions::default()).unwrap();

    assert_eq!(report.findings[0].context, FindingContext::Mixed);
    assert_eq!(report.findings[0].scope, FindingScope::Mixed);
}

#[test]
fn finding_reports_cross_file_distribution() {
    let corpus = build_corpus(vec![
        prepared("a.py", "alpha()\n", &[("alpha()", 0, true)]),
        prepared("b.py", "alpha()\n", &[("alpha()", 0, true)]),
    ])
    .unwrap();

    let groups = vec![DuplicateGroup {
        effective_lines: 1,
        normalized_len: 1,
        occurrences: vec![occurrence(0, 0, 1), occurrence(1, 0, 1)],
    }];

    let report = build_report(&corpus, &groups, &ReportOptions::default()).unwrap();
    let finding = &report.findings[0];

    assert_eq!(finding.occurrences, 2);
    assert_eq!(finding.files, 2);
    assert_eq!(finding.distribution, FindingDistribution::CrossFile);
}

#[test]
fn finding_reports_same_file_distribution() {
    let corpus = build_corpus(vec![prepared(
        "a.py",
        "alpha()\nbeta()\nalpha()\nbeta()\n",
        &[("alpha()", 0, true), ("beta()", 1, true), ("alpha()", 2, true), ("beta()", 3, true)],
    )])
    .unwrap();

    let groups = vec![DuplicateGroup {
        effective_lines: 2,
        normalized_len: 2,
        occurrences: vec![occurrence(0, 0, 2), occurrence(0, 2, 2)],
    }];

    let report = build_report(&corpus, &groups, &ReportOptions::default()).unwrap();
    let finding = &report.findings[0];

    assert_eq!(finding.occurrences, 2);
    assert_eq!(finding.files, 1);
    assert_eq!(finding.distribution, FindingDistribution::SameFile);
}

#[test]
fn finding_reports_mixed_distribution() {
    let corpus = build_corpus(vec![
        prepared("a.py", "alpha()\nalpha()\n", &[("alpha()", 0, true), ("alpha()", 1, true)]),
        prepared("b.py", "alpha()\n", &[("alpha()", 0, true)]),
    ])
    .unwrap();

    let groups = vec![DuplicateGroup {
        effective_lines: 1,
        normalized_len: 1,
        occurrences: vec![occurrence(0, 0, 1), occurrence(0, 1, 1), occurrence(1, 0, 1)],
    }];

    let report = build_report(&corpus, &groups, &ReportOptions::default()).unwrap();
    let finding = &report.findings[0];

    assert_eq!(finding.occurrences, 3);
    assert_eq!(finding.files, 2);
    assert_eq!(finding.distribution, FindingDistribution::Mixed);
}

#[test]
fn empty_report_has_success_status() {
    let corpus = build_corpus(Vec::new()).unwrap();

    let report = build_report(&corpus, &Vec::new(), &ReportOptions::default()).unwrap();

    assert!(!report.has_findings());
    assert_eq!(report.exit_status(), ExitStatus::Success);

    assert_eq!(render_human(&report, "0.00"), ["No duplicate code found.\n", "0 duplicate lines (0.00%).\n"].concat());
}

#[test]
fn report_with_findings_has_findings_status() {
    let corpus = build_corpus(vec![
        prepared("a.py", "alpha()\n", &[("alpha()", 0, true)]),
        prepared("b.py", "alpha()\n", &[("alpha()", 0, true)]),
    ])
    .unwrap();

    let groups = vec![DuplicateGroup {
        effective_lines: 1,
        normalized_len: 1,
        occurrences: vec![occurrence(0, 0, 1), occurrence(1, 0, 1)],
    }];

    let report = build_report(&corpus, &groups, &ReportOptions::default()).unwrap();

    assert!(report.has_findings());
    assert_eq!(report.exit_status(), ExitStatus::Findings);
}

#[test]
fn findings_are_sorted_by_source_location() {
    let lines = [("one()", 0, true), ("two()", 1, true), ("three()", 2, true), ("four()", 3, true)];
    let corpus = build_corpus(vec![
        prepared("a.py", "one()\ntwo()\nthree()\nfour()\n", &lines),
        prepared("b.py", "one()\ntwo()\nthree()\nfour()\n", &lines),
    ])
    .unwrap();

    let groups = vec![
        DuplicateGroup {
            effective_lines: 2,
            normalized_len: 2,
            occurrences: vec![occurrence(0, 2, 2), occurrence(1, 2, 2)],
        },
        DuplicateGroup {
            effective_lines: 2,
            normalized_len: 2,
            occurrences: vec![occurrence(0, 0, 2), occurrence(1, 0, 2)],
        },
    ];

    let report = build_report(&corpus, &groups, &ReportOptions::default()).unwrap();

    assert_eq!(report.findings[0].locations[0].start_line, 1);
    assert_eq!(report.findings[1].locations[0].start_line, 3);
}

#[test]
fn occurrences_within_a_finding_are_sorted_by_location() {
    let common = [("alpha()", 0, true)];
    let corpus = build_corpus(vec![
        prepared("a.py", "alpha()\n", &common),
        prepared("b.py", "alpha()\n", &common),
        prepared("c.py", "alpha()\n", &common),
    ])
    .unwrap();

    let groups = vec![DuplicateGroup {
        effective_lines: 1,
        normalized_len: 1,
        occurrences: vec![occurrence(2, 0, 1), occurrence(0, 0, 1), occurrence(1, 0, 1)],
    }];

    let report = build_report(&corpus, &groups, &ReportOptions::default()).unwrap();
    let paths: Vec<&str> = report.findings[0].locations.iter().map(|l| l.path.as_str()).collect();

    assert_eq!(paths, vec!["a.py", "b.py", "c.py"]);
}

#[test]
fn invalid_group_is_a_metrics_error() {
    let corpus = build_corpus(Vec::new()).unwrap();

    let groups = vec![DuplicateGroup { effective_lines: 1, normalized_len: 1, occurrences: Vec::new() }];

    let error = build_report(&corpus, &groups, &ReportOptions::default()).unwrap_err();

    assert_eq!(error, ReportError::Metrics(MetricsError::EmptyGroup { group: 0 }));
}

#[test]
fn singular_units_in_human_output() {
    let corpus = build_corpus(vec![prepared(
        "a.py",
        "alpha()\nalpha()\n",
        &[("alpha()", 0, true), ("alpha()", 1, true)],
    )])
    .unwrap();

    let groups = vec![DuplicateGroup {
        effective_lines: 1,
        normalized_len: 1,
        occurrences: vec![occurrence(0, 0, 1), occurrence(0, 1, 1)],
    }];

    let report = build_report(&corpus, &groups, &ReportOptions::default()).unwrap();

    assert_eq!(
        render_human(&report, "50.00"),
        [
            "DUP001 1 duplicated line\n",
            "Context: executable\n",
            "Scope: module\n",
            "Occurrences: 2 across 1 file (same-file)\n",
            "\n",
            "  a.py:1-1\n",
            "  a.py:2-2\n",
            "\n",
            "Found 1 duplicate group.\n",
            "1 duplicate line (50.00%).\n",
        ]
        .concat()
    );
}
