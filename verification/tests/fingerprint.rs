use std::ops::Range;

use arid::corpus::build_corpus;
use arid::fingerprint::{finding_fingerprint, FingerprintError};
use arid::model::{
    DuplicateGroup, NormalizedLine, NormalizedSegment, Occurrence, PreparedFile, StructuralContext,
    StructuralScope,
};

fn prepared(path: &str, text_lines: &[&str]) -> PreparedFile {
    let mut normalized = String::new();
    let mut lines = Vec::new();

    for (source_line, text) in text_lines.iter().enumerate() {
        let start = normalized.len() as u32;
        normalized.push_str(text);
        let end = normalized.len() as u32;
        normalized.push('\n');

        lines.push(NormalizedLine {
            text_range: Range { start, end },
            source_line: source_line as u32,
            effective: true,
            context: StructuralContext::Executable,
            scope: StructuralScope::Module,
        });
    }

    let segments = if lines.is_empty() {
        Vec::new()
    } else {
        vec![NormalizedSegment { start: 0, end: lines.len() as u32 }]
    };

    PreparedFile { path: path.to_owned(), source: String::new(), normalized, lines, segments }
}

fn occurrence(file: u32, start: u32, len: u32) -> Occurrence {
    Occurrence { file, normalized_start: start, normalized_len: len }
}

fn group(effective_lines: u32, normalized_len: u32, occurrences: Vec<Occurrence>) -> DuplicateGroup {
    DuplicateGroup { effective_lines, normalized_len, occurrences }
}

#[test]
fn matches_stable_known_vector() {
    let corpus = build_corpus(vec![prepared("src/example.py", &["alpha = 1", "beta = 2"])]).unwrap();
    let group = group(2, 2, vec![occurrence(0, 0, 2)]);

    assert_eq!(
        finding_fingerprint(&corpus, &group).unwrap(),
        "arid-finding-v1:sha256:572a68e97a82622bee89bc469c0d261ad28357d1753dd70128e424144f9d6443"
    );
}

#[test]
fn ignores_path_and_physical_line_numbers() {
    let first = build_corpus(vec![prepared("src/a.py", &["alpha = 1", "beta = 2"])]).unwrap();

    let mut moved = prepared("renamed/b.py", &["alpha = 1", "beta = 2"]);
    moved.lines[0].source_line = 100;
    moved.lines[1].source_line = 200;
    let second = build_corpus(vec![moved]).unwrap();
    let group = group(2, 2, vec![occurrence(0, 0, 2)]);

    assert_eq!(finding_fingerprint(&first, &group).unwrap(), finding_fingerprint(&second, &group).unwrap());
}

#[test]
fn ignores_occurrence_order_and_multiplicity() {
    let corpus = build_corpus(vec![
        prepared("a.py", &["alpha = 1", "beta = 2"]),
        prepared("b.py", &["alpha = 1", "beta = 2"]),
    ])
    .unwrap();

    let single = group(2, 2, vec![occurrence(0, 0, 2)]);
    let forward = group(2, 2, vec![occurrence(0, 0, 2), occurrence(1, 0, 2)]);
    let reversed = group(2, 2, vec![occurrence(1, 0, 2), occurrence(0, 0, 2)]);

    let expected = finding_fingerprint(&corpus, &single).unwrap();

    assert_eq!(finding_fingerprint(&corpus, &forward).unwrap(), expected);
    assert_eq!(finding_fingerprint(&corpus, &reversed).unwrap(), expected);
}

#[test]
fn changes_when_normalized_content_changes() {
    let first = build_corpus(vec![prepared("a.py", &["alpha = 1", "beta = 2"])]).unwrap();
    let second = build_corpus(vec![prepared("a.py", &["alpha = 1", "beta = 3"])]).unwrap();
    let group = group(2, 2, vec![occurrence(0, 0, 2)]);

    assert_ne!(finding_fingerprint(&first, &group).unwrap(), finding_fingerprint(&second, &group).unwrap());
}

#[test]
fn preserves_normalized_line_boundaries() {
    let first = build_corpus(vec![prepared("a.py", &["ab", "c"])]).unwrap();
    let second = build_corpus(vec![prepared("a.py", &["a", "bc"])]).unwrap();
    let group = group(2, 2, vec![occurrence(0, 0, 2)]);

    assert_ne!(finding_fingerprint(&first, &group).unwrap(), finding_fingerprint(&second, &group).unwrap());
}

#[test]
fn includes_effective_line_count() {
    let corpus = build_corpus(vec![prepared("a.py", &["alpha = 1", "beta = 2"])]).unwrap();

    assert_ne!(
        finding_fingerprint(&corpus, &group(1, 2, vec![occurrence(0, 0, 2)])).unwrap(),
        finding_fingerprint(&corpus, &group(2, 2, vec![occurrence(0, 0, 2)])).unwrap()
    );
}

#[test]
fn rejects_mismatched_occurrence_length() {
    let corpus = build_corpus(vec![prepared("a.py", &["alpha = 1", "beta = 2"])]).unwrap();
    let malformed = group(2, 2, vec![occurrence(0, 0, 1)]);

    assert!(matches!(
        finding_fingerprint(&corpus, &malformed),
        Err(FingerprintError::InvalidOccurrenceRange { .. })
    ));
}

#[test]
fn finding_fingerprint_reports_each_malformed_group() {
    let corpus = build_corpus(vec![prepared("a.py", &["alpha = 1", "beta = 2"])]).unwrap();

    assert_eq!(finding_fingerprint(&corpus, &group(2, 2, Vec::new())), Err(FingerprintError::EmptyGroup));
    assert_eq!(
        finding_fingerprint(&corpus, &group(2, 2, vec![occurrence(4, 0, 2)])),
        Err(FingerprintError::InvalidFile { file: 4 })
    );
    assert_eq!(
        finding_fingerprint(&corpus, &group(2, 2, vec![occurrence(0, 1, 2)])),
        Err(FingerprintError::InvalidOccurrenceRange { path: "a.py".to_owned(), start: 1, length: 2 })
    );
}

#[test]
fn finding_and_group_fingerprints_differ_in_domain() {
    let corpus = build_corpus(vec![prepared("a.py", &["alpha = 1", "beta = 2"])]).unwrap();
    let group = group(2, 2, vec![occurrence(0, 0, 2)]);
    let finding = finding_fingerprint(&corpus, &group).unwrap();
    let baseline = arid::baseline::group_fingerprint(&corpus, &group).unwrap();

    assert!(finding.starts_with("arid-finding-v1:sha256:"));
    assert_eq!(finding.len(), "arid-finding-v1:sha256:".len() + 64);
    assert_ne!(finding["arid-finding-v1:sha256:".len()..], baseline["sha256:".len()..]);
}
