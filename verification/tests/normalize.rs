use std::ops::Range;

use arid::analysis::{PythonAnalysis, StructuralRegion, SuppressionEvent, SuppressionKind};
use arid::model::{NormalizedSegment, PreparedFile, StructuralContext, StructuralScope};
use arid::normalize::{prepare_file, prepare_file_with_mode, SuppressionMode};
use arid::suppression::{SuppressionEnd, SuppressionRegion};

use StructuralContext::{Declarative, Executable};
use StructuralScope::{Class, Function, Module};

// The analyses below are what the Python analysis reports for each source:
// masked byte ranges, directive comments and classified statement ranges.

/// Byte range of the `nth` occurrence of `needle` in `source`.
fn nth(source: &str, needle: &str, nth: usize) -> Range<usize> {
    let mut from = 0;
    let mut found = 0;
    loop {
        let start = from + source[from..].find(needle).expect("needle occurs");
        if found == nth {
            return start..start + needle.len();
        }
        found += 1;
        from = start + 1;
    }
}

fn span(source: &str, needle: &str) -> Range<usize> {
    nth(source, needle, 0)
}

/// Range from the start of `first` to the end of `last`, both first occurrences.
fn between(source: &str, first: &str, last: &str) -> Range<usize> {
    let start = span(source, first).start;
    let end = start + source[start..].find(last).expect("end occurs") + last.len();
    start..end
}

fn region(range: Range<usize>, context: StructuralContext, scope: StructuralScope) -> StructuralRegion {
    StructuralRegion { range, context, scope }
}

fn disable(source: &str, nth_directive: usize) -> SuppressionEvent {
    SuppressionEvent { offset: nth(source, "# arid: disable", nth_directive).start, kind: SuppressionKind::Disable }
}

fn enable(source: &str, nth_directive: usize) -> SuppressionEvent {
    SuppressionEvent { offset: nth(source, "# arid: enable", nth_directive).start, kind: SuppressionKind::Enable }
}

fn analysis(
    masks: Vec<Range<usize>>,
    suppressions: Vec<SuppressionEvent>,
    mut structural_regions: Vec<StructuralRegion>,
) -> PythonAnalysis {
    structural_regions.sort_by_key(|region| (region.range.start, region.range.end));
    PythonAnalysis { masks, suppressions, structural_regions }
}

fn prepare(source: &str, analysis: PythonAnalysis) -> PreparedFile {
    prepare_file("example.py".to_owned(), source.to_owned(), Ok(analysis)).unwrap()
}

fn prepare_audit(source: &str, analysis: PythonAnalysis) -> (PreparedFile, Vec<SuppressionRegion>) {
    prepare_file_with_mode("example.py".to_owned(), source.to_owned(), Ok(analysis), SuppressionMode::Audit).unwrap()
}

fn texts(file: &PreparedFile) -> Vec<&str> {
    file.lines
        .iter()
        .map(|line| &file.normalized[line.text_range.start as usize..line.text_range.end as usize])
        .collect()
}

#[test]
fn ignores_comments_but_not_hashes_inside_strings() {
    let source = r##"
value = "# not a comment"
other = 42  # comment
"##;
    let file = prepare(
        source,
        analysis(
            vec![span(source, "# comment")],
            vec![],
            vec![
                region(span(source, r##"value = "# not a comment""##), Declarative, Module),
                region(span(source, "other = 42"), Declarative, Module),
            ],
        ),
    );

    assert_eq!(texts(&file), vec![r##"value = "# not a comment""##, "other = 42",]);
}

#[test]
fn ignores_structural_docstrings_only() {
    let source = r#"
"""module docstring"""

class Example:
    """class docstring"""

    def method(self):
        """method docstring"""
        value = 1
        """ordinary string expression"""
        return value
"#;
    let file = prepare(
        source,
        analysis(
            vec![
                span(source, "\"\"\"module docstring\"\"\""),
                span(source, "\"\"\"class docstring\"\"\""),
                span(source, "def method(self):"),
                span(source, "\"\"\"method docstring\"\"\""),
            ],
            vec![],
            vec![
                region(span(source, "\"\"\"module docstring\"\"\""), Executable, Module),
                region(between(source, "class Example:", "return value"), Declarative, Class),
                region(span(source, "\"\"\"class docstring\"\"\""), Executable, Class),
                region(between(source, "def method", "return value"), Declarative, Function),
                region(span(source, "\"\"\"method docstring\"\"\""), Executable, Function),
                region(span(source, "value = 1"), Executable, Function),
                region(span(source, "\"\"\"ordinary string expression\"\"\""), Executable, Function),
                region(span(source, "return value"), Executable, Function),
            ],
        ),
    );

    assert_eq!(
        texts(&file),
        vec!["class Example:", "value = 1", "\"\"\"ordinary string expression\"\"\"", "return value",]
    );
}

#[test]
fn ignores_imports_at_nested_scopes() {
    let source = r#"
import os

from package import (
    first,
    second,
)

if enabled:
    import nested
    run()
"#;
    let file = prepare(
        source,
        analysis(
            vec![
                span(source, "import os"),
                between(source, "from package", ")"),
                span(source, "import nested"),
            ],
            vec![],
            vec![
                region(span(source, "import os"), Declarative, Module),
                region(between(source, "from package", ")"), Declarative, Module),
                region(between(source, "if enabled:", "run()"), Executable, Module),
                region(span(source, "import nested"), Executable, Module),
                region(span(source, "run()"), Executable, Module),
            ],
        ),
    );

    assert_eq!(texts(&file), vec!["if enabled:", "run()",]);
}

#[test]
fn ignores_multiline_and_one_line_function_signatures() {
    let source = r#"
def calculate(
    first: int,
    second: int,
) -> int:
    return first + second

def compact(): return calculate(1, 2)
"#;
    let file = prepare(
        source,
        analysis(
            vec![between(source, "def calculate(", "-> int:"), span(source, "def compact():")],
            vec![],
            vec![
                region(between(source, "def calculate(", "return first + second"), Declarative, Function),
                region(span(source, "return first + second"), Executable, Function),
                region(span(source, "def compact(): return calculate(1, 2)"), Declarative, Function),
                region(span(source, "return calculate(1, 2)"), Executable, Function),
            ],
        ),
    );

    assert_eq!(texts(&file), vec!["return first + second", "return calculate(1, 2)",]);
}

#[test]
fn preserves_decorators_while_ignoring_async_and_nested_signatures() {
    let source = r#"
@outer_decorator
async def outer(
    value: dict[str, tuple[int, int]],
) -> list[int]:
    @inner_decorator
    def inner(item: int) -> int:
        return item

    return [inner(value["item"][0])]
"#;
    let file = prepare(
        source,
        analysis(
            vec![between(source, "async def outer(", "-> list[int]:"), span(source, "def inner(item: int) -> int:")],
            vec![],
            vec![
                region(between(source, "@outer_decorator", "[0])]"), Declarative, Function),
                region(between(source, "@inner_decorator", "return item"), Declarative, Function),
                region(span(source, "return item"), Executable, Function),
                region(span(source, "return [inner(value[\"item\"][0])]"), Executable, Function),
            ],
        ),
    );

    assert_eq!(
        texts(&file),
        vec!["@outer_decorator", "@inner_decorator", "return item", "return [inner(value[\"item\"][0])]",]
    );
}

#[test]
fn removes_import_without_leaving_a_semicolon() {
    let source = "import os; run()\nrun(); import os\n";
    let file = prepare(
        source,
        analysis(
            vec![span(source, "import os;"), span(source, "; import os")],
            vec![],
            vec![
                region(nth(source, "import os", 0), Declarative, Module),
                region(nth(source, "run()", 0), Executable, Module),
                region(nth(source, "run()", 1), Executable, Module),
                region(nth(source, "import os", 1), Declarative, Module),
            ],
        ),
    );

    assert_eq!(texts(&file), vec!["run()", "run()",]);
}

#[test]
fn classifies_structural_context_and_scope() {
    let source = r#"
SETTING = 1

class Example:
    value = 1

    def method(self):
        result = 2
        return result

if enabled:
    nested = 3
"#;
    let file = prepare(
        source,
        analysis(
            vec![span(source, "def method(self):")],
            vec![],
            vec![
                region(span(source, "SETTING = 1"), Declarative, Module),
                region(between(source, "class Example:", "return result"), Declarative, Class),
                region(span(source, "value = 1"), Declarative, Class),
                region(between(source, "def method", "return result"), Declarative, Function),
                region(span(source, "result = 2"), Executable, Function),
                region(span(source, "return result"), Executable, Function),
                region(between(source, "if enabled:", "nested = 3"), Executable, Module),
                region(span(source, "nested = 3"), Executable, Module),
            ],
        ),
    );

    assert_eq!(
        texts(&file),
        vec![
            "SETTING = 1",
            "class Example:",
            "value = 1",
            "result = 2",
            "return result",
            "if enabled:",
            "nested = 3",
        ]
    );

    let metadata: Vec<_> = file.lines.iter().map(|line| (line.context, line.scope)).collect();

    assert_eq!(
        metadata,
        vec![
            (StructuralContext::Declarative, StructuralScope::Module),
            (StructuralContext::Declarative, StructuralScope::Class),
            (StructuralContext::Declarative, StructuralScope::Class),
            (StructuralContext::Executable, StructuralScope::Function),
            (StructuralContext::Executable, StructuralScope::Function),
            (StructuralContext::Executable, StructuralScope::Module),
            (StructuralContext::Executable, StructuralScope::Module),
        ]
    );
}

#[test]
fn classifies_type_aliases_as_declarative_module_scope() {
    let source = "type JsonScalar = str | int | float | bool | None\n\ntype CuratedRagSource = (\n    ReportRecord\n    | AgentSignalRecord\n    | RecommendationRecord\n)\n";
    let file = prepare(
        source,
        analysis(
            vec![],
            vec![],
            vec![
                region(span(source, "type JsonScalar = str | int | float | bool | None"), Declarative, Module),
                region(between(source, "type CuratedRagSource", "Record\n)"), Declarative, Module),
            ],
        ),
    );

    assert_eq!(
        texts(&file),
        vec![
            "type JsonScalar = str | int | float | bool | None",
            "type CuratedRagSource = (",
            "ReportRecord",
            "| AgentSignalRecord",
            "| RecommendationRecord",
            ")",
        ]
    );

    assert!(file.lines.iter().all(|line| line.context == StructuralContext::Declarative));
    assert!(file.lines.iter().all(|line| line.scope == StructuralScope::Module));

    assert!(!file.lines.last().unwrap().effective);
}

#[test]
fn classifies_mixed_statements_on_one_line() {
    let source = "value = 1; run()\n";
    let file = prepare(
        source,
        analysis(
            vec![],
            vec![],
            vec![region(span(source, "value = 1"), Declarative, Module), region(span(source, "run()"), Executable, Module)],
        ),
    );

    assert_eq!(texts(&file), vec!["value = 1; run()"]);
    assert_eq!(file.lines[0].context, StructuralContext::Mixed);
    assert_eq!(file.lines[0].scope, StructuralScope::Module);
}

#[test]
fn classifies_only_retained_source_after_masking() {
    let source = "import os; run()\n";
    let file = prepare(
        source,
        analysis(
            vec![span(source, "import os;")],
            vec![],
            vec![region(span(source, "import os"), Declarative, Module), region(span(source, "run()"), Executable, Module)],
        ),
    );

    assert_eq!(texts(&file), vec!["run()"]);
    assert_eq!(file.lines[0].context, StructuralContext::Executable);
    assert_eq!(file.lines[0].scope, StructuralScope::Module);
}

#[test]
fn suppression_creates_segment_barrier() {
    let source = r#"
first()
second()

# arid: disable
ignored()
also_ignored()
# arid: enable

third()
fourth()
"#;
    let file = prepare(
        source,
        analysis(
            vec![span(source, "# arid: disable"), span(source, "# arid: enable")],
            vec![disable(source, 0), enable(source, 0)],
            ["first()", "second()", "ignored()", "also_ignored()", "third()", "fourth()"]
                .into_iter()
                .map(|call| region(span(source, call), Executable, Module))
                .collect(),
        ),
    );

    assert_eq!(texts(&file), vec!["first()", "second()", "third()", "fourth()",]);

    assert_eq!(file.segments, vec![NormalizedSegment { start: 0, end: 2 }, NormalizedSegment { start: 2, end: 4 },]);
}

#[test]
fn inline_disable_takes_effect_after_its_physical_line() {
    let source = "before()\nkept()  # arid: disable\nhidden()\n# arid: enable\nafter()\n";
    let file = prepare(
        source,
        analysis(
            vec![span(source, "# arid: disable"), span(source, "# arid: enable")],
            vec![disable(source, 0), enable(source, 0)],
            vec![
                region(span(source, "before()"), Executable, Module),
                region(span(source, "kept()"), Executable, Module),
                region(span(source, "hidden()"), Executable, Module),
                region(span(source, "after()"), Executable, Module),
            ],
        ),
    );

    assert_eq!(texts(&file), vec!["before()", "kept()", "after()"]);
    assert_eq!(file.segments, vec![NormalizedSegment { start: 0, end: 2 }, NormalizedSegment { start: 2, end: 3 },]);
}

#[test]
fn audit_preparation_retains_suppressed_source_without_barriers() {
    let source = "first()\n# arid: disable\nhidden()\n# arid: disable\nalso_hidden()\n# arid: enable\n# arid: enable\nlast()\n";
    let (file, suppressions) = prepare_audit(
        source,
        analysis(
            vec![
                nth(source, "# arid: disable", 0),
                nth(source, "# arid: disable", 1),
                nth(source, "# arid: enable", 0),
                nth(source, "# arid: enable", 1),
            ],
            vec![disable(source, 0), disable(source, 1), enable(source, 0), enable(source, 1)],
            vec![
                region(span(source, "first()"), Executable, Module),
                region(span(source, "hidden()"), Executable, Module),
                region(span(source, "also_hidden()"), Executable, Module),
                region(span(source, "last()"), Executable, Module),
            ],
        ),
    );

    assert_eq!(texts(&file), vec!["first()", "hidden()", "also_hidden()", "last()"]);
    assert_eq!(file.segments, vec![NormalizedSegment { start: 0, end: 4 }]);
    assert_eq!(suppressions, vec![SuppressionRegion { disable_line: 2, end: SuppressionEnd::Enable { line: 6 } }]);
}

#[test]
fn punctuation_lines_are_retained_but_not_effective() {
    let source = "value = (\n    call()\n)\n";
    let file = prepare(
        source,
        analysis(vec![], vec![], vec![region(between(source, "value", "\n)"), Declarative, Module)]),
    );

    assert_eq!(texts(&file), vec!["value = (", "call()", ")",]);

    assert!(file.lines[0].effective);
    assert!(file.lines[1].effective);
    assert!(!file.lines[2].effective);
}

#[test]
fn preserves_original_source_line_mapping() {
    let source = "\n# ignored\nfirst()\n\nsecond()\n";
    let file = prepare(
        source,
        analysis(
            vec![span(source, "# ignored")],
            vec![],
            vec![region(span(source, "first()"), Executable, Module), region(span(source, "second()"), Executable, Module)],
        ),
    );

    assert_eq!(texts(&file), vec!["first()", "second()",]);

    // Internal source lines are zero-based.
    assert_eq!(file.lines[0].source_line, 2);
    assert_eq!(file.lines[1].source_line, 4);
}

#[test]
fn normalizes_crlf_line_endings() {
    let source = "first()\r\nsecond()\r\n";
    let file = prepare(
        source,
        analysis(
            vec![],
            vec![],
            vec![region(span(source, "first()"), Executable, Module), region(span(source, "second()"), Executable, Module)],
        ),
    );

    assert_eq!(texts(&file), vec!["first()", "second()",]);
}

#[test]
fn strips_utf8_bom() {
    // The analysis describes the source without its byte order mark.
    let stripped = "first()\n";
    let file = prepare(
        "\u{feff}first()\n",
        analysis(vec![], vec![], vec![region(span(stripped, "first()"), Executable, Module)]),
    );

    assert_eq!(texts(&file), vec!["first()"]);
}

#[test]
fn rejects_invalid_python() {
    let error = prepare_file(
        "broken.py".to_owned(),
        "value = 1\n)\n".to_owned(),
        Err("Expected a statement at line 2, column 1".to_owned()),
    )
    .unwrap_err();

    let message = error.message();

    assert!(message.contains("broken.py"));
    assert!(message.contains("invalid Python syntax"));
    assert!(message.contains("line 2, column 1"));
}

#[test]
fn retained_text_keeps_multibyte_characters() {
    let source = "naïve = \"é\"  # ünïcode\n";
    let file = prepare(
        source,
        analysis(vec![span(source, "# ünïcode")], vec![], vec![region(span(source, "naïve = \"é\""), Declarative, Module)]),
    );

    assert_eq!(texts(&file), vec!["naïve = \"é\""]);
    assert_eq!(file.lines[0].context, StructuralContext::Declarative);
}
