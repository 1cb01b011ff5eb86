use std::ops::Range;

use arid::corpus::{build_corpus, CorpusError, CorpusLocation};
use arid::model::{NormalizedLine, NormalizedSegment, PreparedFile, StructuralContext, StructuralScope};

fn prepared(path: &str, text_lines: &[&str], segments: &[(u32, u32)]) -> PreparedFile {
    let mut normalized = String::new();
    let mut lines = Vec::new();

    for (source_line, text) in text_lines.iter().enumerate() {
        let start = normalized.len() as u32;
        normalized.push_str(text);
        let end = normalized.len() as u32;
        normalized.push('\n');

        lines.push(NormalizedLine {
            text_range: Range { start, end },
            source_line: source_line as u32,
            effective: true,
            context: StructuralContext::Executable,
            scope: StructuralScope::Module,
        });
    }

    PreparedFile {
        path: path.to_owned(),
        source: String::new(),
        normalized,
        lines,
        segments: segments
            .iter()
            .map(|&(start, end)| NormalizedSegment { start, end })
            .collect(),
    }
}

#[test]
fn interns_identical_lines_once() {
    let corpus = build_corpus(vec![
        prepared("a.py", &["same()", "first()"], &[(0, 2)]),
        prepared("b.py", &["same()", "second()"], &[(0, 2)]),
    ])
    .unwrap();

    assert_eq!(corpus.line_id_count, 3);
    assert_eq!(corpus.tokens, vec![0, 1, 3, 0, 2, 4]);
}

#[test]
fn assigns_unique_sentinels_to_each_segment() {
    let corpus = build_corpus(vec![prepared(
        "a.py",
        &["one()", "two()", "three()", "four()"],
        &[(0, 2), (2, 4)],
    )])
    .unwrap();

    assert_eq!(corpus.line_id_count, 4);
    assert_eq!(corpus.segment_count, 2);
    assert_eq!(corpus.tokens, vec![0, 1, 4, 2, 3, 5]);
    assert!(corpus.is_sentinel_token(4));
    assert!(corpus.is_sentinel_token(5));
    assert!(!corpus.is_sentinel_token(3));
}

#[test]
fn sentinel_positions_have_no_source_location() {
    let corpus = build_corpus(vec![prepared("a.py", &["one()", "two()"], &[(0, 2)])]).unwrap();

    assert_eq!(
        corpus.source_at(0),
        Some(CorpusLocation { file: 0, normalized_line: 0 })
    );
    assert_eq!(
        corpus.source_at(1),
        Some(CorpusLocation { file: 0, normalized_line: 1 })
    );
    assert_eq!(corpus.source_at(2), None);
}

#[test]
fn sorts_files_before_assigning_ids() {
    let first = prepared("b.py", &["same()", "from_b()"], &[(0, 2)]);
    let second = prepared("a.py", &["same()", "from_a()"], &[(0, 2)]);

    let forward = build_corpus(vec![first.clone(), second.clone()]).unwrap();
    let reversed = build_corpus(vec![second, first]).unwrap();

    assert_eq!(forward.tokens, reversed.tokens);
    assert_eq!(forward.positions, reversed.positions);
    assert_eq!(forward.files[0].path, "a.py");
    assert_eq!(forward.files[1].path, "b.py");
    assert_eq!(forward.tokens, vec![0, 1, 3, 0, 2, 4]);
}

#[test]
fn preserves_normalized_line_mapping_across_segments() {
    let corpus = build_corpus(vec![prepared(
        "a.py",
        &["one()", "two()", "three()", "four()"],
        &[(0, 2), (2, 4)],
    )])
    .unwrap();

    assert_eq!(
        corpus.positions,
        vec![
            Some(CorpusLocation { file: 0, normalized_line: 0 }),
            Some(CorpusLocation { file: 0, normalized_line: 1 }),
            None,
            Some(CorpusLocation { file: 0, normalized_line: 2 }),
            Some(CorpusLocation { file: 0, normalized_line: 3 }),
            None,
        ]
    );
}

#[test]
fn rejects_duplicate_paths() {
    let result = build_corpus(vec![
        prepared("same.py", &["one()"], &[(0, 1)]),
        prepared("same.py", &["two()"], &[(0, 1)]),
    ]);

    assert!(matches!(result, Err(CorpusError::DuplicatePath(_))));
}

#[test]
fn rejects_segments_that_do_not_partition_lines() {
    let result = build_corpus(vec![prepared(
        "a.py",
        &["one()", "two()", "three()"],
        &[(0, 1), (2, 3)],
    )]);

    assert!(matches!(result, Err(CorpusError::InvalidSegments { .. })));
}

#[test]
fn accepts_empty_prepared_files() {
    let corpus = build_corpus(vec![prepared("empty.py", &[], &[])]).unwrap();

    assert!(corpus.tokens.is_empty());
    assert!(corpus.positions.is_empty());
    assert_eq!(corpus.line_id_count, 0);
    assert_eq!(corpus.segment_count, 0);
}

#[test]
fn path_order_compares_components() {
    let corpus = build_corpus(vec![
        prepared("a.b/x.py", &["one()"], &[(0, 1)]),
        prepared("a/b.py", &["two()"], &[(0, 1)]),
    ])
    .unwrap();

    assert_eq!(corpus.files[0].path, "a/b.py");
    assert_eq!(corpus.files[1].path, "a.b/x.py");
}

#[test]
fn paths_compare_by_component() {
    let result = build_corpus(vec![
        prepared("pkg/./mod.py", &["alpha()"], &[(0, 1)]),
        prepared("pkg//mod.py", &["beta()"], &[(0, 1)]),
    ]);
    assert!(matches!(result, Err(CorpusError::DuplicatePath(_))));

    let corpus = build_corpus(vec![
        prepared("-x.py", &["alpha()"], &[(0, 1)]),
        prepared("./x.py", &["beta()"], &[(0, 1)]),
        prepared("a.py", &["gamma()"], &[(0, 1)]),
        prepared("a/b.py", &["delta()"], &[(0, 1)]),
    ])
    .unwrap();
    let paths: Vec<&str> = corpus.files.iter().map(|f| f.path.as_str()).collect();
    assert_eq!(paths, vec!["./x.py", "-x.py", "a/b.py", "a.py"]);
}
