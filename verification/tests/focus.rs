use std::ops::Range;

use arid::corpus::build_corpus;
use arid::focus::{resolve_focus, FocusError, FocusSet};
use arid::model::{
    DuplicateGroup, NormalizedLine, NormalizedSegment, Occurrence, PreparedFile, StructuralContext,
    StructuralScope,
};

fn strings(items: &[&str]) -> Vec<String> {
    items.iter().map(|item| (*item).to_owned()).collect()
}

fn prepared(path: &str) -> PreparedFile {
    PreparedFile {
        path: path.to_owned(),
        source: "value = 1\n".to_owned(),
        normalized: "value=1\n".to_owned(),
        lines: vec![NormalizedLine {
            text_range: Range { start: 0, end: 7 },
            source_line: 0,
            effective: true,
            context: StructuralContext::Executable,
            scope: StructuralScope::Module,
        }],
        segments: vec![NormalizedSegment { start: 0, end: 1 }],
    }
}

#[test]
fn canonicalizes_deduplicates_and_sorts_selectors() {
    let inputs = strings(&["project/src/a.py", "project/tests/test_a.py"]);

    let focus = resolve_focus(&strings(&["tests", "src/a.py", "tests"]), &inputs, "project").unwrap();

    assert_eq!(focus.selectors(), &strings(&["src/a.py", "tests"]));
}

#[test]
fn validates_against_virtual_source_that_is_not_on_disk() {
    let inputs = strings(&["project/src/proposed.py"]);

    let focus = resolve_focus(&strings(&["src/proposed.py"]), &inputs, "project").unwrap();

    assert_eq!(focus.selectors(), &strings(&["src/proposed.py"]));
}

#[test]
fn rejects_unmatched_selector() {
    let inputs = strings(&["project/src/a.py"]);

    let error = resolve_focus(&strings(&["tests"]), &inputs, "project").unwrap_err();

    assert_eq!(error, FocusError::Unmatched { selector: "tests".to_owned() });
}

#[test]
fn rejects_selector_outside_project_root() {
    let inputs = strings(&["project/src/a.py"]);

    let error = resolve_focus(&strings(&["../outside.py"]), &inputs, "project").unwrap_err();

    assert!(matches!(error, FocusError::InvalidPath { ref path, .. } if path == "../outside.py"));
}

#[test]
fn absolute_selectors_are_taken_as_given() {
    let inputs = strings(&["/work/project/src/a.py"]);

    let focus = resolve_focus(&strings(&["/work/project/src"]), &inputs, "/work/project").unwrap();

    assert_eq!(focus.selectors(), &strings(&["src"]));
    assert!(focus.matches_source("src/a.py"));
    assert!(!focus.matches_source("src2/a.py"));
}

#[test]
fn empty_request_focuses_nothing() {
    let focus = resolve_focus(&Vec::new(), &strings(&["project/a.py"]), "project").unwrap();
    assert_eq!(focus, FocusSet::none());
}

#[test]
fn filtering_keeps_complete_matching_groups() {
    let corpus = build_corpus(vec![prepared("project/a.py"), prepared("project/b.py"), prepared("project/c.py")]).unwrap();
    let inputs = strings(&["project/a.py", "project/b.py", "project/c.py"]);
    let focus = resolve_focus(&strings(&["b.py"]), &inputs, "project").unwrap();
    let occurrence = |file: u32| Occurrence { file, normalized_start: 0, normalized_len: 1 };
    let matching =
        DuplicateGroup { effective_lines: 1, normalized_len: 1, occurrences: vec![occurrence(0), occurrence(1)] };
    let unrelated = DuplicateGroup { effective_lines: 1, normalized_len: 1, occurrences: vec![occurrence(2)] };
    let copy = DuplicateGroup { effective_lines: 1, normalized_len: 1, occurrences: vec![occurrence(0), occurrence(1)] };

    let filtered = focus.filter_groups(&corpus, vec![matching, unrelated], "project");

    assert_eq!(filtered, vec![copy]);
    assert_eq!(filtered[0].occurrences.len(), 2);
}

#[test]
fn empty_focus_keeps_every_group() {
    let corpus = build_corpus(vec![prepared("project/a.py")]).unwrap();
    let group = DuplicateGroup {
        effective_lines: 1,
        normalized_len: 1,
        occurrences: vec![Occurrence { file: 0, normalized_start: 0, normalized_len: 1 }],
    };
    let copy = DuplicateGroup {
        effective_lines: 1,
        normalized_len: 1,
        occurrences: vec![Occurrence { file: 0, normalized_start: 0, normalized_len: 1 }],
    };

    assert_eq!(FocusSet::none().filter_groups(&corpus, vec![group], "project"), vec![copy]);
}
