use std::ops::Range;

use arid::corpus::build_corpus;
use arid::detect::{detect_duplicates, DetectError, DetectionOptions};
use arid::model::{
    DuplicateGroup, NormalizedLine, NormalizedSegment, Occurrence, PreparedFile, StructuralContext,
    StructuralScope,
};

fn prepared(path: &str, text_lines: &[(&str, bool)], segments: &[(u32, u32)]) -> PreparedFile {
    let mut normalized = String::new();
    let mut lines = Vec::new();

    for (source_line, &(text, effective)) in text_lines.iter().enumerate() {
        let start = normalized.len() as u32;
        normalized.push_str(text);
        let end = normalized.len() as u32;
        normalized.push('\n');

        lines.push(NormalizedLine {
            text_range: Range { start, end },
            source_line: source_line as u32,
            effective,
            context: StructuralContext::Executable,
            scope: StructuralScope::Module,
        });
    }

    PreparedFile {
        path: path.to_owned(),
        source: String::new(),
        normalized,
        lines,
        segments: segments
            .iter()
            .map(|&(start, end)| NormalizedSegment { start, end })
            .collect(),
    }
}

fn effective_lines<'a>(lines: &[&'a str]) -> Vec<(&'a str, bool)> {
    lines.iter().map(|&line| (line, true)).collect()
}

fn detect(files: Vec<PreparedFile>, min_lines: u32, same_file: bool) -> Vec<DuplicateGroup> {
    let corpus = build_corpus(files).unwrap();
    detect_duplicates(&corpus, DetectionOptions { min_lines, same_file }).unwrap()
}

#[test]
fn detects_cross_file_duplicate_block() {
    let first_lines = effective_lines(&["alpha()", "beta()", "gamma()", "delta()", "only_a()"]);
    let second_lines = effective_lines(&["alpha()", "beta()", "gamma()", "delta()", "only_b()"]);

    let groups = detect(
        vec![
            prepared("a.py", &first_lines, &[(0, 5)]),
            prepared("b.py", &second_lines, &[(0, 5)]),
        ],
        4,
        true,
    );

    assert_eq!(groups.len(), 1);
    assert_eq!(
        groups[0],
        DuplicateGroup {
            effective_lines: 4,
            normalized_len: 4,
            occurrences: vec![
                Occurrence { file: 0, normalized_start: 0, normalized_len: 4 },
                Occurrence { file: 1, normalized_start: 0, normalized_len: 4 },
            ],
        }
    );
}

#[test]
fn groups_three_occurrences_together() {
    let common = ["alpha()", "beta()", "gamma()", "delta()"];

    let mut first = effective_lines(&common);
    first.push(("only_a()", true));
    let mut second = effective_lines(&common);
    second.push(("only_b()", true));
    let mut third = effective_lines(&common);
    third.push(("only_c()", true));

    let groups = detect(
        vec![
            prepared("a.py", &first, &[(0, 5)]),
            prepared("b.py", &second, &[(0, 5)]),
            prepared("c.py", &third, &[(0, 5)]),
        ],
        4,
        true,
    );

    assert_eq!(groups.len(), 1);
    assert_eq!(groups[0].normalized_len, 4);
    assert_eq!(groups[0].effective_lines, 4);
    assert_eq!(groups[0].occurrences.len(), 3);
}

#[test]
fn detects_non_overlapping_same_file_duplicates() {
    let lines = effective_lines(&[
        "alpha()", "beta()", "gamma()", "delta()", "gap()", "alpha()", "beta()", "gamma()",
        "delta()",
    ]);

    let groups = detect(vec![prepared("a.py", &lines, &[(0, 9)])], 4, true);

    assert_eq!(groups.len(), 1);
    assert_eq!(
        groups[0].occurrences,
        vec![
            Occurrence { file: 0, normalized_start: 0, normalized_len: 4 },
            Occurrence { file: 0, normalized_start: 5, normalized_len: 4 },
        ]
    );
}

#[test]
fn can_disable_same_file_only_detection() {
    let lines = effective_lines(&[
        "alpha()", "beta()", "gamma()", "delta()", "gap()", "alpha()", "beta()", "gamma()",
        "delta()",
    ]);

    let groups = detect(vec![prepared("a.py", &lines, &[(0, 9)])], 4, false);

    assert!(groups.is_empty());
}

#[test]
fn qualifies_by_effective_lines_not_physical_length() {
    let lines = [("(", false), ("calculate()", true), (")", false), ("return value", true)];

    let files = vec![prepared("a.py", &lines, &[(0, 4)]), prepared("b.py", &lines, &[(0, 4)])];

    let too_strict = detect(files.clone(), 3, true);
    assert!(too_strict.is_empty());

    let accepted = detect(files, 2, true);
    assert_eq!(accepted.len(), 1);
    assert_eq!(accepted[0].normalized_len, 4);
    assert_eq!(accepted[0].effective_lines, 2);
}

#[test]
fn does_not_match_across_segment_boundaries() {
    let first = effective_lines(&["alpha()", "beta()", "gamma()", "delta()"]);
    let second = first.clone();

    let groups = detect(
        vec![
            prepared("a.py", &first, &[(0, 2), (2, 4)]),
            prepared("b.py", &second, &[(0, 4)]),
        ],
        4,
        true,
    );

    assert!(groups.is_empty());
}

#[test]
fn preserves_shorter_group_when_it_adds_an_occurrence() {
    let first = effective_lines(&["alpha()", "beta()", "gamma()", "delta()", "only_a()"]);
    let second = effective_lines(&["alpha()", "beta()", "gamma()", "delta()", "only_b()"]);
    let third = effective_lines(&["alpha()", "beta()", "gamma()", "different()", "only_c()"]);

    let groups = detect(
        vec![
            prepared("a.py", &first, &[(0, 5)]),
            prepared("b.py", &second, &[(0, 5)]),
            prepared("c.py", &third, &[(0, 5)]),
        ],
        3,
        true,
    );

    assert_eq!(groups.len(), 2);

    let lengths: Vec<u32> = groups.iter().map(|group| group.normalized_len).collect();
    assert!(lengths.contains(&4));
    assert!(lengths.contains(&3));

    let shorter = groups.iter().find(|group| group.normalized_len == 3).unwrap();
    assert_eq!(shorter.occurrences.len(), 3);
}

#[test]
fn suppresses_fully_contained_repetitive_group() {
    let lines = effective_lines(&["same()", "same()", "same()", "same()"]);

    let groups = detect(vec![prepared("a.py", &lines, &[(0, 4)])], 1, true);

    assert_eq!(groups.len(), 1);
    assert_eq!(groups[0].normalized_len, 2);
    assert_eq!(
        groups[0].occurrences,
        vec![
            Occurrence { file: 0, normalized_start: 0, normalized_len: 2 },
            Occurrence { file: 0, normalized_start: 2, normalized_len: 2 },
        ]
    );
}

#[test]
fn rejects_zero_min_lines() {
    let corpus = build_corpus(Vec::new()).unwrap();

    let error = detect_duplicates(&corpus, DetectionOptions { min_lines: 0, same_file: true })
        .unwrap_err();

    assert!(matches!(error, DetectError::InvalidMinLines));
}

#[test]
fn detection_is_independent_of_input_file_order() {
    let first = prepared(
        "b.py",
        &effective_lines(&["alpha()", "beta()", "gamma()", "delta()"]),
        &[(0, 4)],
    );
    let second = prepared(
        "a.py",
        &effective_lines(&["alpha()", "beta()", "gamma()", "delta()"]),
        &[(0, 4)],
    );

    let forward = detect(vec![first.clone(), second.clone()], 4, true);
    let reversed = detect(vec![second, first], 4, true);

    assert_eq!(forward, reversed);
}

#[test]
fn default_detection_options_match_documented_defaults() {
    let options = DetectionOptions::default();
    assert_eq!(options.min_lines, 4);
    assert!(options.same_file);
}
