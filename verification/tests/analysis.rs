use std::ops::Range;

use arid::analysis::{
    assemble_analysis, body_scope, classify_statement, collect_comments, contains_line_break, directive_kind,
    extend_statement_range, merge_ranges, signature_span, sort_regions, sort_suppressions, Comment, StatementKind,
    StructuralRegion, SuppressionEvent, SuppressionKind, Token, TokenClass,
};
use arid::model::{StructuralContext, StructuralScope};

#[test]
fn directives_allow_surrounding_whitespace() {
    assert_eq!(directive_kind("# arid: disable"), Some(SuppressionKind::Disable));
    assert_eq!(directive_kind("#arid: enable  "), Some(SuppressionKind::Enable));
    assert_eq!(directive_kind("#\tarid: disable\u{a0}"), Some(SuppressionKind::Disable));
    assert_eq!(directive_kind("# arid:disable"), None);
    assert_eq!(directive_kind("# ARID: disable"), None);
    assert_eq!(directive_kind("arid: disable"), None);
    assert_eq!(directive_kind("# arid: disable now"), None);
    assert_eq!(directive_kind(""), None);
}

#[test]
fn overlapping_and_touching_ranges_merge() {
    let merged = merge_ranges(&vec![10..12, 0..3, 2..5, 5..7, 20..20, 11..15]);
    assert_eq!(merged, vec![0..7, 10..15, 20..20]);
}

#[test]
fn merged_ranges_cover_the_same_bytes() {
    let input: Vec<Range<usize>> = vec![4..9, 1..2, 8..11, 14..16, 2..3];
    let merged = merge_ranges(&input);
    for p in 0..20 {
        let before = input.iter().any(|r| r.start <= p && p < r.end);
        let after = merged.iter().any(|r| r.start <= p && p < r.end);
        assert_eq!(before, after, "byte {p}");
    }
    for pair in merged.windows(2) {
        assert!(pair[0].end < pair[1].start);
    }
}

#[test]
fn line_breaks_are_found_between_offsets() {
    let source = "a;\r\nb; c";
    assert!(contains_line_break(source, 2, 4));
    assert!(!contains_line_break(source, 5, 7));
    assert!(!contains_line_break(source, 3, 3));
}

#[test]
fn suppressions_sort_by_offset() {
    let events = vec![
        SuppressionEvent { offset: 30, kind: SuppressionKind::Enable },
        SuppressionEvent { offset: 4, kind: SuppressionKind::Disable },
    ];
    let sorted = sort_suppressions(&events);
    assert_eq!(sorted[0].offset, 4);
    assert_eq!(sorted[1].offset, 30);
}

fn region(start: usize, end: usize, scope: StructuralScope) -> StructuralRegion {
    StructuralRegion { range: start..end, context: StructuralContext::Executable, scope }
}

#[test]
fn regions_sort_by_start_then_end() {
    let regions = vec![
        region(10, 20, StructuralScope::Module),
        region(0, 30, StructuralScope::Class),
        region(10, 12, StructuralScope::Function),
    ];
    let sorted = sort_regions(&regions);
    let ranges: Vec<Range<usize>> = sorted.iter().map(|r| r.range.clone()).collect();
    assert_eq!(ranges, vec![0..30, 10..12, 10..20]);
    assert_eq!(sorted[0].scope, StructuralScope::Class);
}

#[test]
fn statements_are_classified_by_kind_scope_and_depth() {
    let module = StructuralScope::Module;
    assert_eq!(
        classify_statement(StatementKind::FunctionDef, module, 3),
        (StructuralContext::Declarative, StructuralScope::Function)
    );
    assert_eq!(
        classify_statement(StatementKind::ClassDef, StructuralScope::Function, 0),
        (StructuralContext::Declarative, StructuralScope::Class)
    );
    assert_eq!(classify_statement(StatementKind::Assign, module, 0), (StructuralContext::Declarative, module));
    assert_eq!(classify_statement(StatementKind::Assign, module, 1), (StructuralContext::Executable, module));
    assert_eq!(
        classify_statement(StatementKind::Import, StructuralScope::Function, 0),
        (StructuralContext::Executable, StructuralScope::Function)
    );
    assert_eq!(classify_statement(StatementKind::Return, module, 0), (StructuralContext::Executable, module));
    assert_eq!(body_scope(StatementKind::ClassDef, module, 2), (StructuralScope::Class, 0));
    assert_eq!(body_scope(StatementKind::If, module, 2), (module, 3));
    assert_eq!(body_scope(StatementKind::If, module, u32::MAX), (module, u32::MAX));
}

fn token(class: TokenClass, start: usize, end: usize) -> Token {
    Token { class, start, end }
}

#[test]
fn signature_ends_at_the_colon_outside_brackets() {
    // async def f(x: int = {1: 2}) -> int:
    let tokens = vec![
        token(TokenClass::Async, 0, 5),
        token(TokenClass::Def, 6, 9),
        token(TokenClass::Other, 10, 11),
        token(TokenClass::Open, 11, 12),
        token(TokenClass::Colon, 13, 14),
        token(TokenClass::Open, 21, 22),
        token(TokenClass::Colon, 23, 24),
        token(TokenClass::Close, 26, 27),
        token(TokenClass::Close, 27, 28),
        token(TokenClass::Colon, 35, 36),
    ];
    assert_eq!(signature_span(&tokens), Some(0..36));
    assert_eq!(signature_span(&vec![token(TokenClass::Colon, 0, 1)]), None);
}

#[test]
fn removed_statement_takes_its_semicolon() {
    let source = "import os; run()";
    let next = Some(token(TokenClass::Semicolon, 9, 10));
    assert_eq!(extend_statement_range(source, 0, 9, next, None), 0..10);

    let source = "run(); import os";
    let previous = Some(token(TokenClass::Semicolon, 5, 6));
    assert_eq!(extend_statement_range(source, 7, 16, None, previous), 5..16);

    let source = "import os\n;x";
    let next = Some(token(TokenClass::Semicolon, 10, 11));
    assert_eq!(extend_statement_range(source, 0, 9, next, None), 0..9);
}

#[test]
fn comments_become_masks_and_directives() {
    let comments = vec![
        Comment { range: 0..9, text: "# note".to_owned() },
        Comment { range: 10..25, text: "# arid: disable".to_owned() },
    ];
    let (masks, events) = collect_comments(&comments, false);
    assert_eq!(masks, vec![10..25]);
    assert_eq!(events, vec![SuppressionEvent { offset: 10, kind: SuppressionKind::Disable }]);

    let (masks, _) = collect_comments(&comments, true);
    assert_eq!(masks, vec![0..9, 10..25]);
}

#[test]
fn assembled_analysis_is_ordered() {
    let analysis = assemble_analysis(
        &vec![5..8, 0..6],
        &vec![SuppressionEvent { offset: 9, kind: SuppressionKind::Enable }],
        &vec![region(4, 6, StructuralScope::Module), region(0, 8, StructuralScope::Module)],
    );
    assert_eq!(analysis.masks, vec![0..8]);
    assert_eq!(analysis.structural_regions[0].range, 0..8);
}
