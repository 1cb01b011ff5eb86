use std::collections::BTreeSet;

use arid::report::{Finding, FindingContext, FindingDistribution, FindingScope, Location, Report};
use arid::summary::{build_summary, ContextSummary, DistributionSummary, Hotspot, ScopeSummary};

fn location(path: &str, start_line: u64) -> Location {
    Location { path: path.to_owned(), start_line, end_line: start_line + 1, source: None }
}

fn finding(
    context: FindingContext,
    scope: FindingScope,
    distribution: FindingDistribution,
    locations: Vec<Location>,
) -> Finding {
    let files = locations.iter().map(|location| location.path.as_str()).collect::<BTreeSet<_>>().len() as u32;
    Finding {
        code: "DUP001".to_owned(),
        lines: 4,
        context,
        scope,
        occurrences: locations.len() as u32,
        files,
        distribution,
        locations,
    }
}

fn report(findings: Vec<Finding>) -> Report {
    Report {
        version: 3,
        files: 8,
        source_lines: 800,
        analyzed_lines: 600,
        duplicate_groups: findings.len() as u64,
        duplicate_lines: 120,
        findings,
    }
}

#[test]
fn aggregates_overall_counts_and_fixed_buckets() {
    let report = report(vec![
        finding(
            FindingContext::Executable,
            FindingScope::Function,
            FindingDistribution::CrossFile,
            vec![location("a.py", 1), location("b.py", 1)],
        ),
        finding(
            FindingContext::Declarative,
            FindingScope::Module,
            FindingDistribution::SameFile,
            vec![location("c.py", 1), location("c.py", 10)],
        ),
        finding(
            FindingContext::Mixed,
            FindingScope::Mixed,
            FindingDistribution::Mixed,
            vec![location("d.py", 1), location("d.py", 10), location("e.py", 1)],
        ),
        finding(
            FindingContext::Executable,
            FindingScope::Class,
            FindingDistribution::CrossFile,
            vec![location("f.py", 1), location("g.py", 1)],
        ),
    ]);

    let summary = build_summary(&report);

    assert_eq!(summary.files, 8);
    assert_eq!(summary.files_with_duplicates, 7);
    assert_eq!(summary.source_lines, 800);
    assert_eq!(summary.analyzed_lines, 600);
    assert_eq!(summary.duplicate_groups, 4);
    assert_eq!(summary.occurrences, 9);
    assert_eq!(summary.duplicate_lines, 120);
    assert_eq!(summary.context, ContextSummary { executable: 2, declarative: 1, mixed: 1 });
    assert_eq!(summary.scope, ScopeSummary { function: 1, module: 1, class: 1, mixed: 1 });
    assert_eq!(summary.distribution, DistributionSummary { cross_file: 2, same_file: 1, mixed: 1 });
}

#[test]
fn hotspot_counts_each_group_once_per_path_but_every_location() {
    let report = report(vec![
        finding(
            FindingContext::Executable,
            FindingScope::Function,
            FindingDistribution::Mixed,
            vec![location("a.py", 1), location("a.py", 10), location("b.py", 1)],
        ),
        finding(
            FindingContext::Executable,
            FindingScope::Function,
            FindingDistribution::CrossFile,
            vec![location("a.py", 20), location("c.py", 1)],
        ),
    ]);

    let summary = build_summary(&report);

    assert_eq!(
        summary.hotspots,
        vec![
            Hotspot { path: "a.py".to_owned(), groups: 2, occurrences: 3 },
            Hotspot { path: "b.py".to_owned(), groups: 1, occurrences: 1 },
            Hotspot { path: "c.py".to_owned(), groups: 1, occurrences: 1 },
        ]
    );
}

#[test]
fn hotspot_order_is_deterministic_and_truncated_to_five() {
    let findings = ["f.py", "e.py", "d.py", "c.py", "b.py", "a.py"]
        .into_iter()
        .map(|path| {
            finding(
                FindingContext::Executable,
                FindingScope::Function,
                FindingDistribution::SameFile,
                vec![location(path, 1), location(path, 10)],
            )
        })
        .collect();

    let summary = build_summary(&report(findings));

    assert_eq!(
        summary.hotspots.iter().map(|hotspot| hotspot.path.as_str()).collect::<Vec<_>>(),
        vec!["a.py", "b.py", "c.py", "d.py", "e.py"]
    );
    assert_eq!(summary.files_with_duplicates, 6);
}

#[test]
fn zero_findings_produce_zero_aggregate_state() {
    let mut report = report(Vec::new());
    report.duplicate_lines = 0;

    let summary = build_summary(&report);

    assert_eq!(summary.files_with_duplicates, 0);
    assert_eq!(summary.duplicate_groups, 0);
    assert_eq!(summary.occurrences, 0);
    assert_eq!(summary.context, ContextSummary { executable: 0, declarative: 0, mixed: 0 });
    assert_eq!(summary.scope, ScopeSummary { function: 0, module: 0, class: 0, mixed: 0 });
    assert_eq!(summary.distribution, DistributionSummary { cross_file: 0, same_file: 0, mixed: 0 });
    assert!(summary.hotspots.is_empty());
}

#[test]
fn more_copies_rank_a_hotspot_first_among_equal_groups() {
    let report = report(vec![
        finding(
            FindingContext::Executable,
            FindingScope::Function,
            FindingDistribution::Mixed,
            vec![location("a.py", 1), location("z.py", 1), location("z.py", 9)],
        ),
    ]);

    let summary = build_summary(&report);

    assert_eq!(summary.hotspots[0].path, "z.py");
    assert_eq!(summary.hotspots[1].path, "a.py");
}
