use std::ops::Range;

use arid::analysis::{PythonAnalysis, StructuralRegion, SuppressionEvent, SuppressionKind};
use arid::config::Settings;
use arid::model::{StructuralContext, StructuralScope};
use arid::normalize::{prepare_file_with_mode, SuppressionMode};
use arid::suppression::{
    build_suppression_status, derive_suppression_regions, render_suppression_status_text, AuditPreparedFile,
    SuppressionEnd, SuppressionRegion, SuppressionStatusKind, SuppressionSummary, SuppressionTermination,
};

/// The analysis of a source made of one-line statements and comment lines,
/// possibly with a trailing comment: each comment is masked and a directive
/// comment is also a suppression event; each statement is a region, an
/// assignment being declarative module code.
fn line_analysis(source: &str) -> PythonAnalysis {
    let mut masks = Vec::new();
    let mut suppressions = Vec::new();
    let mut structural_regions = Vec::new();
    let mut start = 0;
    for line in source.split_inclusive('\n') {
        let content = line.trim_end_matches('\n');
        let code_end = content.find('#').unwrap_or(content.len());
        if let Some(hash) = content.find('#') {
            let comment = start + hash..start + content.len();
            match content[hash + 1..].trim() {
                "arid: disable" => suppressions.push(SuppressionEvent { offset: comment.start, kind: SuppressionKind::Disable }),
                "arid: enable" => suppressions.push(SuppressionEvent { offset: comment.start, kind: SuppressionKind::Enable }),
                _ => {}
            }
            masks.push(comment);
        }
        let code = content[..code_end].trim_end();
        if !code.is_empty() {
            let context = if code.contains(" = ") { StructuralContext::Declarative } else { StructuralContext::Executable };
            structural_regions.push(StructuralRegion {
                range: Range { start, end: start + code.len() },
                context,
                scope: StructuralScope::Module,
            });
        }
        start += line.len();
    }
    PythonAnalysis { masks, suppressions, structural_regions }
}

fn regions(source: &str) -> Vec<SuppressionRegion> {
    let analysis = line_analysis(source);
    derive_suppression_regions(source, &analysis.suppressions)
}

fn audit_file(path: &str, source: &str) -> AuditPreparedFile {
    let (file, suppressions) = prepare_file_with_mode(
        path.to_owned(),
        source.to_owned(),
        Ok(line_analysis(source)),
        SuppressionMode::Audit,
    )
    .unwrap();

    AuditPreparedFile { file, suppressions }
}

fn settings() -> Settings {
    Settings { min_lines: 2, ..Settings::default() }
}

fn status(files: Vec<AuditPreparedFile>) -> arid::suppression::SuppressionStatus {
    build_suppression_status(files, &settings(), "project", true, "0.1.0".to_owned()).unwrap()
}

#[test]
fn derives_enable_terminated_region() {
    let source = "before()\n# arid: disable\nhidden()\n# arid: enable\nafter()\n";

    assert_eq!(regions(source), vec![SuppressionRegion { disable_line: 2, end: SuppressionEnd::Enable { line: 4 } }]);
}

#[test]
fn derives_eof_terminated_region() {
    let source = "before()\n# arid: disable\nhidden()\n";

    assert_eq!(regions(source), vec![SuppressionRegion { disable_line: 2, end: SuppressionEnd::Eof }]);
}

#[test]
fn repeated_same_state_directives_are_noops() {
    let source = "# arid: enable\n# arid: disable\n# arid: disable\n# arid: enable\n# arid: enable\n";

    assert_eq!(regions(source), vec![SuppressionRegion { disable_line: 2, end: SuppressionEnd::Enable { line: 4 } }]);
}

#[test]
fn derives_multiple_effective_regions() {
    let source = "# arid: disable\nfirst()\n# arid: enable\nmiddle()\n# arid: disable\nsecond()\n";

    assert_eq!(
        regions(source),
        vec![
            SuppressionRegion { disable_line: 1, end: SuppressionEnd::Enable { line: 3 } },
            SuppressionRegion { disable_line: 5, end: SuppressionEnd::Eof },
        ]
    );
}

#[test]
fn inline_directive_uses_its_physical_line() {
    let source = "kept()  # arid: disable\nhidden()\n# arid: enable\n";

    assert_eq!(regions(source), vec![SuppressionRegion { disable_line: 1, end: SuppressionEnd::Enable { line: 3 } }]);
}

#[test]
fn classifies_active_and_stale_regions() {
    let status = status(vec![
        audit_file("project/a.py", "alpha = 1\nbeta = 2\n"),
        audit_file("project/b.py", "# arid: disable\nalpha = 1\nbeta = 2\n# arid: enable\n"),
        audit_file("project/c.py", "# arid: disable\ngamma = 3\ndelta = 4\n# arid: enable\n"),
    ]);

    assert_eq!(status.summary.total, 2);
    assert_eq!(status.summary.active, 1);
    assert_eq!(status.summary.stale, 1);
    assert!(status.has_stale());
    assert_eq!(status.regions[0].path, "b.py");
    assert_eq!(status.regions[0].status, SuppressionStatusKind::Active);
    assert_eq!(status.regions[1].path, "c.py");
    assert_eq!(status.regions[1].status, SuppressionStatusKind::Stale);
}

#[test]
fn suppressed_regions_can_activate_one_another() {
    let source = "# arid: disable\nalpha = 1\nbeta = 2\n# arid: enable\n";
    let status = status(vec![audit_file("project/a.py", source), audit_file("project/b.py", source)]);

    assert_eq!(status.summary.active, 2);
    assert_eq!(status.summary.stale, 0);
    assert!(!status.has_stale());
}

#[test]
fn empty_region_is_active_when_its_boundary_breaks_a_duplicate() {
    let status = status(vec![
        audit_file("project/a.py", "alpha = 1\nbeta = 2\n"),
        audit_file("project/b.py", "alpha = 1\n# arid: disable\n# arid: enable\nbeta = 2\n"),
    ]);

    assert_eq!(status.summary.active, 1);
    assert_eq!(status.regions[0].status, SuppressionStatusKind::Active);
}

#[test]
fn eof_region_is_a_normal_stale_record() {
    let status = status(vec![audit_file("project/a.py", "before = 1\n# arid: disable\nunique = 2\n")]);

    assert_eq!(status.summary.stale, 1);
    assert_eq!(status.regions[0].end_line, None);
    assert_eq!(status.regions[0].termination, SuppressionTermination::Eof);
}

#[test]
fn no_effective_regions_is_a_successful_empty_status() {
    let status = status(vec![audit_file("project/a.py", "alpha = 1\n")]);

    assert_eq!(status.summary, SuppressionSummary::default());
    assert!(status.regions.is_empty());
    assert!(!status.has_stale());
}

#[test]
fn text_lists_summary_and_regions() {
    let status = status(vec![audit_file("project/a.py", "# arid: disable\nunique = 1\n# arid: enable\n")]);
    let rendered = render_suppression_status_text(&status);

    assert!(rendered.starts_with("Suppression status\n"));
    assert!(rendered.contains("Files: 1"));
    assert!(rendered.contains("Total suppressions: 1"));
    assert!(rendered.contains("Stale suppressions: 1"));
    assert!(rendered.contains("stale: a.py:1-3 (enable)"));
}

#[test]
fn status_text_is_exact() {
    let status = status(vec![
        audit_file("project/b.py", "# arid: disable\nalpha = 1\nbeta = 2\n"),
        audit_file("project/a.py", "alpha = 1\nbeta = 2\n# arid: disable\n# arid: enable\n"),
    ]);

    assert_eq!(
        render_suppression_status_text(&status),
        "Suppression status\nFiles: 2\nTotal suppressions: 2\nActive suppressions: 1\nStale suppressions: 1\nstale: a.py:3-4 (enable)\nactive: b.py:1-EOF (eof)\n"
    );
}

#[test]
fn regions_are_sorted_by_path_then_lines() {
    let status = status(vec![
        audit_file("project/b.py", "# arid: disable\nx = 1\n# arid: enable\n"),
        audit_file("project/a.py", "y = 1\n# arid: disable\nz = 1\n# arid: enable\n# arid: disable\nw = 1\n# arid: enable\n"),
    ]);

    let order: Vec<(&str, u32)> = status.regions.iter().map(|region| (region.path.as_str(), region.start_line)).collect();
    assert_eq!(order, vec![("a.py", 2), ("a.py", 5), ("b.py", 1)]);
    assert_eq!(status.files, 2);
}

#[test]
fn audit_rejects_zero_minimum_lines() {
    let result = build_suppression_status(
        vec![audit_file("project/a.py", "alpha = 1\n")],
        &Settings { min_lines: 0, ..Settings::default() },
        "project",
        true,
        "0.1.0".to_owned(),
    );

    assert!(matches!(
        result,
        Err(arid::suppression::SuppressionAuditError::Detect(arid::detect::DetectError::InvalidMinLines))
    ));
}
