use std::ops::Range;

use arid::corpus::build_corpus;
use arid::metrics::{calculate_metrics, Metrics, MetricsError};
use arid::model::{
    DuplicateGroup, NormalizedLine, NormalizedSegment, Occurrence, PreparedFile, StructuralContext,
    StructuralScope,
};

fn prepared(path: &str, lines: &[(&str, bool)]) -> PreparedFile {
    let mut source = String::new();
    let mut normalized = String::new();
    let mut normalized_lines = Vec::new();

    for (source_line, &(text, effective)) in lines.iter().enumerate() {
        source.push_str(text);
        source.push('\n');

        let start = normalized.len() as u32;
        normalized.push_str(text);
        let end = normalized.len() as u32;
        normalized.push('\n');

        normalized_lines.push(NormalizedLine {
            text_range: Range { start, end },
            source_line: source_line as u32,
            effective,
            context: StructuralContext::Executable,
            scope: StructuralScope::Module,
        });
    }

    let line_count = normalized_lines.len() as u32;

    PreparedFile {
        path: path.to_owned(),
        source,
        normalized,
        lines: normalized_lines,
        segments: if line_count == 0 {
            Vec::new()
        } else {
            vec![NormalizedSegment { start: 0, end: line_count }]
        },
    }
}

fn occurrence(file: u32, start: u32, length: u32) -> Occurrence {
    Occurrence { file, normalized_start: start, normalized_len: length }
}

fn group(length: u32, occurrences: Vec<Occurrence>) -> DuplicateGroup {
    DuplicateGroup { effective_lines: length, normalized_len: length, occurrences }
}

#[test]
fn empty_corpus_has_zero_metrics() {
    let corpus = build_corpus(Vec::new()).unwrap();

    let metrics = calculate_metrics(&corpus, &Vec::new()).unwrap();

    assert_eq!(
        metrics,
        Metrics {
            files: 0,
            source_lines: 0,
            analyzed_lines: 0,
            duplicate_groups: 0,
            duplicate_lines: 0,
        }
    );
}

#[test]
fn counts_files_source_lines_and_analyzed_lines() {
    let corpus = build_corpus(vec![
        prepared("a.py", &[("alpha()", true), (")", false), ("beta()", true)]),
        prepared("b.py", &[("gamma()", true), ("delta()", true)]),
    ])
    .unwrap();

    let metrics = calculate_metrics(&corpus, &Vec::new()).unwrap();

    assert_eq!(metrics.files, 2);
    assert_eq!(metrics.source_lines, 5);
    assert_eq!(metrics.analyzed_lines, 4);
    assert_eq!(metrics.duplicate_groups, 0);
    assert_eq!(metrics.duplicate_lines, 0);
}

#[test]
fn counts_only_occurrences_beyond_canonical_copy() {
    let common = [("alpha()", true), ("beta()", true), ("gamma()", true)];

    let corpus = build_corpus(vec![prepared("a.py", &common), prepared("b.py", &common)]).unwrap();

    let groups = vec![group(3, vec![occurrence(0, 0, 3), occurrence(1, 0, 3)])];

    let metrics = calculate_metrics(&corpus, &groups).unwrap();

    assert_eq!(metrics.analyzed_lines, 6);
    assert_eq!(metrics.duplicate_groups, 1);
    assert_eq!(metrics.duplicate_lines, 3);
}

#[test]
fn three_occurrences_count_two_as_redundant() {
    let common = [("alpha()", true), ("beta()", true), ("gamma()", true), ("delta()", true)];

    let corpus = build_corpus(vec![
        prepared("a.py", &common),
        prepared("b.py", &common),
        prepared("c.py", &common),
    ])
    .unwrap();

    let groups = vec![group(4, vec![occurrence(0, 0, 4), occurrence(1, 0, 4), occurrence(2, 0, 4)])];

    let metrics = calculate_metrics(&corpus, &groups).unwrap();

    assert_eq!(metrics.analyzed_lines, 12);
    assert_eq!(metrics.duplicate_lines, 8);
}

#[test]
fn counts_only_effective_redundant_lines() {
    let lines = [("value = (", true), ("calculate()", true), (")", false), ("]", false)];

    let corpus = build_corpus(vec![prepared("a.py", &lines), prepared("b.py", &lines)]).unwrap();

    let groups = vec![DuplicateGroup {
        effective_lines: 2,
        normalized_len: 4,
        occurrences: vec![occurrence(0, 0, 4), occurrence(1, 0, 4)],
    }];

    let metrics = calculate_metrics(&corpus, &groups).unwrap();

    assert_eq!(metrics.analyzed_lines, 4);
    assert_eq!(metrics.duplicate_lines, 2);
}

#[test]
fn overlapping_groups_do_not_double_count_lines() {
    let lines = [("a()", true), ("b()", true), ("c()", true), ("d()", true), ("e()", true), ("f()", true)];

    let corpus = build_corpus(vec![prepared("a.py", &lines), prepared("b.py", &lines)]).unwrap();

    let groups = vec![
        group(4, vec![occurrence(0, 0, 4), occurrence(1, 0, 4)]),
        group(4, vec![occurrence(0, 2, 4), occurrence(1, 2, 4)]),
    ];

    let metrics = calculate_metrics(&corpus, &groups).unwrap();

    // b.py's redundant ranges 0..4 and 2..6 cover all six lines once.
    assert_eq!(metrics.analyzed_lines, 12);
    assert_eq!(metrics.duplicate_lines, 6);
}

#[test]
fn canonical_occurrence_is_smallest_source_location() {
    let common = [("alpha()", true), ("beta()", true)];

    let corpus = build_corpus(vec![
        prepared("a.py", &common),
        prepared("b.py", &common),
        prepared("c.py", &common),
    ])
    .unwrap();

    let groups = vec![group(2, vec![occurrence(2, 0, 2), occurrence(1, 0, 2), occurrence(0, 0, 2)])];

    let metrics = calculate_metrics(&corpus, &groups).unwrap();

    assert_eq!(metrics.duplicate_lines, 4);
}

#[test]
fn rejects_group_without_occurrences() {
    let corpus = build_corpus(Vec::new()).unwrap();

    let groups = vec![DuplicateGroup { effective_lines: 4, normalized_len: 4, occurrences: Vec::new() }];

    let error = calculate_metrics(&corpus, &groups).unwrap_err();

    assert!(matches!(error, MetricsError::EmptyGroup { group: 0 }));
}

#[test]
fn rejects_unknown_file() {
    let corpus = build_corpus(vec![prepared("a.py", &[("alpha()", true)])]).unwrap();

    let groups = vec![group(1, vec![occurrence(0, 0, 1), occurrence(1, 0, 1)])];

    let error = calculate_metrics(&corpus, &groups).unwrap_err();

    assert!(matches!(error, MetricsError::UnknownFile { group: 0, file: 1 }));
}

#[test]
fn rejects_out_of_range_occurrence() {
    let corpus = build_corpus(vec![prepared("a.py", &[("alpha()", true), ("beta()", true)])]).unwrap();

    let groups = vec![group(2, vec![occurrence(0, 0, 2), occurrence(0, 1, 2)])];

    let error = calculate_metrics(&corpus, &groups).unwrap_err();

    assert!(matches!(error, MetricsError::InvalidOccurrence { group: 0, file: 0, start: 1, .. }));
}

#[test]
fn rejects_occurrence_length_mismatch() {
    let corpus = build_corpus(vec![prepared("a.py", &[("alpha()", true), ("beta()", true)])]).unwrap();

    let groups = vec![DuplicateGroup {
        effective_lines: 2,
        normalized_len: 2,
        occurrences: vec![occurrence(0, 0, 2), occurrence(0, 1, 1)],
    }];

    let error = calculate_metrics(&corpus, &groups).unwrap_err();

    assert!(matches!(
        error,
        MetricsError::LengthMismatch { group: 0, group_length: 2, occurrence_length: 1 }
    ));
}

#[test]
fn rejects_duplicate_occurrence() {
    let corpus = build_corpus(vec![prepared("a.py", &[("alpha()", true), ("beta()", true)])]).unwrap();

    let duplicate = occurrence(0, 0, 2);

    let groups = vec![group(2, vec![duplicate, duplicate])];

    let error = calculate_metrics(&corpus, &groups).unwrap_err();

    assert!(matches!(error, MetricsError::DuplicateOccurrence { group: 0, file: 0, start: 0 }));
}

#[test]
fn invalid_occurrence_reports_its_end() {
    let corpus = build_corpus(vec![prepared("a.py", &[("alpha()", true), ("beta()", true)])]).unwrap();

    let groups = vec![group(2, vec![occurrence(0, 0, 2), occurrence(0, 1, 2)])];

    let error = calculate_metrics(&corpus, &groups).unwrap_err();

    assert_eq!(error, MetricsError::InvalidOccurrence { group: 0, file: 0, start: 1, end: 3 });
}
