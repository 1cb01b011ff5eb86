use std::ops::Range;

use arid::baseline::{build_baseline, group_fingerprint, valid_fingerprint, Baseline};
use arid::baseline_filter::{compare_baseline, filter_active_groups};
use arid::corpus::{build_corpus, Corpus};
use arid::model::{
    DuplicateGroup, NormalizationOptions, NormalizedLine, NormalizedSegment, Occurrence,
    PreparedFile, StructuralContext, StructuralScope,
};
use sha2::{Digest, Sha256};

fn normalization() -> NormalizationOptions {
    NormalizationOptions {
        ignore_comments: true,
        ignore_docstrings: true,
        ignore_imports: true,
        ignore_signatures: true,
    }
}

fn prepared(path: &str, text_lines: &[&str]) -> PreparedFile {
    let mut normalized = String::new();
    let mut lines = Vec::new();

    for (source_line, text) in text_lines.iter().enumerate() {
        let start = normalized.len() as u32;
        normalized.push_str(text);
        let end = normalized.len() as u32;
        normalized.push('\n');

        lines.push(NormalizedLine {
            text_range: Range { start, end },
            source_line: source_line as u32,
            effective: true,
            context: StructuralContext::Executable,
            scope: StructuralScope::Module,
        });
    }

    let segments = if lines.is_empty() {
        Vec::new()
    } else {
        vec![NormalizedSegment { start: 0, end: lines.len() as u32 }]
    };

    PreparedFile { path: path.to_owned(), source: String::new(), normalized, lines, segments }
}

fn occurrence(file: u32, start: u32) -> Occurrence {
    Occurrence { file, normalized_start: start, normalized_len: 2 }
}

fn group(occurrences: Vec<Occurrence>) -> DuplicateGroup {
    DuplicateGroup { effective_lines: 2, normalized_len: 2, occurrences }
}

fn baseline_for(corpus: &Corpus, group: &DuplicateGroup) -> Baseline {
    build_baseline(corpus, &vec![group.clone()], normalization(), "project").unwrap()
}

#[test]
fn comparison_returns_active_status_and_pruned_baseline() {
    let corpus = build_corpus(vec![
        prepared("project/a.py", &["alpha = 1", "beta = 2"]),
        prepared("project/b.py", &["alpha = 1", "beta = 2"]),
        prepared("project/c.py", &["gamma = 3", "delta = 4"]),
        prepared("project/d.py", &["gamma = 3", "delta = 4"]),
    ])
    .unwrap();
    let accepted_group = group(vec![occurrence(0, 0), occurrence(1, 0)]);
    let active_group = group(vec![occurrence(2, 0), occurrence(3, 0)]);
    let baseline = baseline_for(&corpus, &accepted_group);

    let comparison = compare_baseline(
        &corpus,
        vec![accepted_group, active_group.clone()],
        &baseline,
        normalization(),
        "project",
    )
    .unwrap();

    assert_eq!(comparison.active_groups, vec![active_group]);
    assert_eq!(comparison.status.summary.accepted, 2);
    assert_eq!(comparison.status.summary.active, 2);
    assert_eq!(comparison.status.summary.stale, 0);
    assert_eq!(comparison.status.groups.len(), 2);
    assert_eq!(comparison.pruned, baseline);
}

#[test]
fn comparison_prunes_wholly_stale_group() {
    let corpus = build_corpus(vec![
        prepared("project/a.py", &["alpha = 1", "beta = 2"]),
        prepared("project/b.py", &["alpha = 1", "beta = 2"]),
    ])
    .unwrap();
    let baseline_group = group(vec![occurrence(0, 0), occurrence(1, 0)]);
    let baseline = baseline_for(&corpus, &baseline_group);

    let comparison =
        compare_baseline(&corpus, Vec::new(), &baseline, normalization(), "project").unwrap();

    assert!(comparison.active_groups.is_empty());
    assert_eq!(comparison.status.summary.accepted, 0);
    assert_eq!(comparison.status.summary.active, 0);
    assert_eq!(comparison.status.summary.stale, 2);
    assert!(comparison.pruned.groups.is_empty());
    assert_eq!(comparison.pruned.version, baseline.version);
    assert_eq!(comparison.pruned.normalization, baseline.normalization);
}

#[test]
fn exact_baseline_debt_is_accepted() {
    let corpus = build_corpus(vec![
        prepared("project/a.py", &["alpha = 1", "beta = 2"]),
        prepared("project/b.py", &["alpha = 1", "beta = 2"]),
    ])
    .unwrap();
    let group = group(vec![occurrence(0, 0), occurrence(1, 0)]);
    let baseline = baseline_for(&corpus, &group);

    assert!(filter_active_groups(&corpus, vec![group], &baseline, normalization(), "project")
        .unwrap()
        .is_empty());
}

#[test]
fn physical_line_shifts_do_not_reactivate_debt() {
    let baseline_corpus = build_corpus(vec![
        prepared("project/a.py", &["alpha = 1", "beta = 2"]),
        prepared("project/b.py", &["alpha = 1", "beta = 2"]),
    ])
    .unwrap();
    let group = group(vec![occurrence(0, 0), occurrence(1, 0)]);
    let baseline = baseline_for(&baseline_corpus, &group);

    let mut shifted_a = prepared("project/a.py", &["alpha = 1", "beta = 2"]);
    shifted_a.lines[0].source_line = 40;
    shifted_a.lines[1].source_line = 41;
    let mut shifted_b = prepared("project/b.py", &["alpha = 1", "beta = 2"]);
    shifted_b.lines[0].source_line = 90;
    shifted_b.lines[1].source_line = 91;
    let current_corpus = build_corpus(vec![shifted_a, shifted_b]).unwrap();

    assert!(filter_active_groups(&current_corpus, vec![group], &baseline, normalization(), "project")
        .unwrap()
        .is_empty());
}

#[test]
fn reduced_occurrence_debt_is_accepted() {
    let corpus = build_corpus(vec![
        prepared("project/a.py", &["alpha = 1", "beta = 2", "alpha = 1", "beta = 2"]),
        prepared("project/b.py", &["alpha = 1", "beta = 2"]),
    ])
    .unwrap();
    let baseline_group = group(vec![occurrence(0, 0), occurrence(0, 2), occurrence(1, 0)]);
    let baseline = baseline_for(&corpus, &baseline_group);
    let current = group(vec![occurrence(0, 0), occurrence(1, 0)]);

    assert!(filter_active_groups(&corpus, vec![current], &baseline, normalization(), "project")
        .unwrap()
        .is_empty());
}

#[test]
fn increased_occurrence_debt_keeps_entire_group_active() {
    let corpus = build_corpus(vec![
        prepared("project/a.py", &["alpha = 1", "beta = 2", "alpha = 1", "beta = 2"]),
        prepared("project/b.py", &["alpha = 1", "beta = 2"]),
    ])
    .unwrap();
    let baseline_group = group(vec![occurrence(0, 0), occurrence(1, 0)]);
    let baseline = baseline_for(&corpus, &baseline_group);
    let current = group(vec![occurrence(0, 0), occurrence(0, 2), occurrence(1, 0)]);

    let active = filter_active_groups(
        &corpus,
        vec![current.clone()],
        &baseline,
        normalization(),
        "project",
    )
    .unwrap();

    assert_eq!(active, vec![current]);
    assert_eq!(active[0].occurrences.len(), 3);
}

#[test]
fn new_occurrence_path_keeps_group_active() {
    let corpus = build_corpus(vec![
        prepared("project/a.py", &["alpha = 1", "beta = 2"]),
        prepared("project/b.py", &["alpha = 1", "beta = 2"]),
        prepared("project/c.py", &["alpha = 1", "beta = 2"]),
    ])
    .unwrap();
    let baseline_group = group(vec![occurrence(0, 0), occurrence(1, 0)]);
    let baseline = baseline_for(&corpus, &baseline_group);
    let current = group(vec![occurrence(0, 0), occurrence(1, 0), occurrence(2, 0)]);

    assert_eq!(
        filter_active_groups(&corpus, vec![current.clone()], &baseline, normalization(), "project")
            .unwrap(),
        vec![current]
    );
}

#[test]
fn renamed_occurrence_path_is_conservatively_active() {
    let corpus = build_corpus(vec![
        prepared("project/a.py", &["alpha = 1", "beta = 2"]),
        prepared("project/b.py", &["alpha = 1", "beta = 2"]),
        prepared("project/c.py", &["alpha = 1", "beta = 2"]),
    ])
    .unwrap();
    let baseline_group = group(vec![occurrence(0, 0), occurrence(1, 0)]);
    let baseline = baseline_for(&corpus, &baseline_group);
    let current = group(vec![occurrence(0, 0), occurrence(2, 0)]);

    assert_eq!(
        filter_active_groups(&corpus, vec![current.clone()], &baseline, normalization(), "project")
            .unwrap(),
        vec![current]
    );
}

#[test]
fn new_fingerprint_is_active() {
    let baseline_corpus = build_corpus(vec![
        prepared("project/a.py", &["alpha = 1", "beta = 2"]),
        prepared("project/b.py", &["alpha = 1", "beta = 2"]),
    ])
    .unwrap();
    let baseline_group = group(vec![occurrence(0, 0), occurrence(1, 0)]);
    let baseline = baseline_for(&baseline_corpus, &baseline_group);

    let current_corpus = build_corpus(vec![
        prepared("project/a.py", &["gamma = 3", "delta = 4"]),
        prepared("project/b.py", &["gamma = 3", "delta = 4"]),
    ])
    .unwrap();
    let current = group(vec![occurrence(0, 0), occurrence(1, 0)]);

    assert_eq!(
        filter_active_groups(
            &current_corpus,
            vec![current.clone()],
            &baseline,
            normalization(),
            "project"
        )
        .unwrap(),
        vec![current]
    );
}

#[test]
fn fingerprint_digests_domain_lines_and_effective_count() {
    let corpus = build_corpus(vec![
        prepared("project/a.py", &["alpha = 1", "beta = 2"]),
        prepared("project/b.py", &["alpha = 1", "beta = 2"]),
    ])
    .unwrap();
    let group = group(vec![occurrence(0, 0), occurrence(1, 0)]);

    let mut message = b"arid-baseline-group-v1\0".to_vec();
    message.extend_from_slice(&2u32.to_be_bytes());
    for line in ["alpha = 1", "beta = 2"] {
        message.extend_from_slice(&(line.len() as u32).to_be_bytes());
        message.extend_from_slice(line.as_bytes());
    }
    let digest = Sha256::digest(&message);
    let expected: String =
        format!("sha256:{}", digest.iter().map(|b| format!("{b:02x}")).collect::<String>());

    let fingerprint = group_fingerprint(&corpus, &group).unwrap();
    assert_eq!(fingerprint, expected);
    assert!(valid_fingerprint(&fingerprint));
    assert!(!valid_fingerprint("sha256:abc"));
}

#[test]
fn baseline_records_paths_with_counts() {
    let corpus = build_corpus(vec![
        prepared("project/a.py", &["alpha = 1", "beta = 2", "alpha = 1", "beta = 2"]),
        prepared("project/b.py", &["alpha = 1", "beta = 2"]),
    ])
    .unwrap();
    let group = group(vec![occurrence(0, 0), occurrence(0, 2), occurrence(1, 0)]);
    let baseline = baseline_for(&corpus, &group);

    assert_eq!(baseline.version, 1);
    assert_eq!(baseline.groups.len(), 1);
    assert_eq!(baseline.groups[0].lines, 2);
    assert_eq!(baseline.groups[0].occurrences.len(), 2);
    assert_eq!(baseline.groups[0].occurrences[0].path, "a.py");
    assert_eq!(baseline.groups[0].occurrences[0].count, 2);
    assert_eq!(baseline.groups[0].occurrences[1].path, "b.py");
    assert_eq!(baseline.groups[0].occurrences[1].count, 1);
}

#[test]
fn baseline_written_from_all_groups_accepts_them_all() {
    let corpus = build_corpus(vec![
        prepared("project/a.py", &["alpha = 1", "beta = 2", "gamma = 3", "delta = 4"]),
        prepared("project/b.py", &["alpha = 1", "beta = 2"]),
        prepared("project/c.py", &["gamma = 3", "delta = 4", "gamma = 3", "delta = 4"]),
    ])
    .unwrap();
    let groups = vec![
        group(vec![occurrence(0, 0), occurrence(1, 0)]),
        group(vec![occurrence(0, 2), occurrence(2, 0), occurrence(2, 2)]),
    ];
    let baseline = build_baseline(&corpus, &groups, normalization(), "project").unwrap();

    let active = filter_active_groups(&corpus, groups, &baseline, normalization(), "project").unwrap();

    assert!(active.is_empty());
}
