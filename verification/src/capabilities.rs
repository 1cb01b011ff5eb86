use vstd::prelude::*;

verus! {

/// Version of the capabilities document.
pub const CAPABILITIES_SCHEMA_VERSION: u8 = 1;

/// What this build of the tool supports, for callers that adapt to it.
#[derive(Debug, Clone, PartialEq, Eq)]
pub struct Capabilities {
    pub schema_version: u8,
    pub tool_version: String,
    pub report_schema_versions: Vec<u8>,
    pub baseline_schema_versions: Vec<u8>,
    pub error_schema_versions: Vec<u8>,
    pub finding_fingerprint_versions: Vec<u8>,
    pub formats: Vec<&'static str>,
    pub features: Vec<&'static str>,
}

/// Strict lexicographic order of texts by character code.
pub open spec fn text_lt(a: Seq<char>, b: Seq<char>) -> bool
    decreases a.len(),
{
    if a.len() == 0 {
        b.len() > 0
    } else if b.len() == 0 {
        false
    } else if a[0] != b[0] {
        (a[0] as u32) < (b[0] as u32)
    } else {
        text_lt(a.drop_first(), b.drop_first())
    }
}

/// The texts of `names`, each before every later one.
pub open spec fn lexically_sorted(names: Seq<&'static str>) -> bool {
    forall|i: int, j: int| 0 <= i < j < names.len() ==> text_lt((#[trigger] names[i])@, (#[trigger] names[j])@)
}

pub open spec fn format_names() -> Seq<Seq<char>> {
    seq!["json"@, "markdown"@, "sarif"@, "text"@]
}

pub open spec fn feature_names() -> Seq<Seq<char>> {
    seq![
        "baseline-prune"@,
        "baseline-status"@,
        "focus"@,
        "keep-going"@,
        "no-fail-on-findings"@,
        "stdin-path"@,
        "workers-auto"@,
    ]
}

fn byte_list(value: u8) -> (list: Vec<u8>)
    ensures
        list@ == seq![value],
{
    let mut list: Vec<u8> = Vec::new();
    list.push(value);
    proof {
        assert(list@ =~= seq![value]);
    }
    list
}

/// The capabilities of this build, whose version is `tool_version`. The
/// format and feature names are lexically sorted.
pub fn build_capabilities(tool_version: &str) -> (c: Capabilities)
    ensures
        c.schema_version == CAPABILITIES_SCHEMA_VERSION,
        c.tool_version@ == tool_version@,
        c.report_schema_versions@ == seq![4u8],
        c.baseline_schema_versions@ == seq![1u8],
        c.error_schema_versions@ == seq![1u8],
        c.finding_fingerprint_versions@ == seq![1u8],
        c.formats@.len() == format_names().len(),
        forall|i: int| 0 <= i < c.formats@.len() ==> (#[trigger] c.formats@[i])@ == format_names()[i],
        c.features@.len() == feature_names().len(),
        forall|i: int| 0 <= i < c.features@.len() ==> (#[trigger] c.features@[i])@ == feature_names()[i],
        lexically_sorted(c.formats@),
        lexically_sorted(c.features@),
{
    let mut formats: Vec<&'static str> = Vec::new();
    formats.push("json");
    formats.push("markdown");
    formats.push("sarif");
    formats.push("text");
    let mut features: Vec<&'static str> = Vec::new();
    features.push("baseline-prune");
    features.push("baseline-status");
    features.push("focus");
    features.push("keep-going");
    features.push("no-fail-on-findings");
    features.push("stdin-path");
    features.push("workers-auto");
    proof {
        reveal_strlit("json");
        reveal_strlit("markdown");
        reveal_strlit("sarif");
        reveal_strlit("text");
        reveal_strlit("baseline-prune");
        reveal_strlit("baseline-status");
        reveal_strlit("focus");
        reveal_strlit("keep-going");
        reveal_strlit("no-fail-on-findings");
        reveal_strlit("stdin-path");
        reveal_strlit("workers-auto");
        reveal_with_fuel(text_lt, 12);
        assert(text_lt(formats@[0]@, formats@[1]@));
        assert(text_lt(formats@[1]@, formats@[2]@));
        assert(text_lt(formats@[2]@, formats@[3]@));
        assert(text_lt(features@[0]@, features@[1]@));
        assert(text_lt(features@[1]@, features@[2]@));
        assert(text_lt(features@[2]@, features@[3]@));
        assert(text_lt(features@[3]@, features@[4]@));
        assert(text_lt(features@[4]@, features@[5]@));
        assert(text_lt(features@[5]@, features@[6]@));
        lemma_sorted_from_neighbours(formats@);
        lemma_sorted_from_neighbours(features@);
    }
    Capabilities {
        schema_version: CAPABILITIES_SCHEMA_VERSION,
        tool_version: tool_version.to_owned(),
        report_schema_versions: byte_list(4),
        baseline_schema_versions: byte_list(1),
        error_schema_versions: byte_list(1),
        finding_fingerprint_versions: byte_list(1),
        formats,
        features,
    }
}

proof fn lemma_text_lt_transitive(a: Seq<char>, b: Seq<char>, c: Seq<char>)
    requires
        text_lt(a, b),
        text_lt(b, c),
    ensures
        text_lt(a, c),
    decreases a.len(),
{
    if a.len() > 0 && b.len() > 0 && c.len() > 0 && a[0] == b[0] && b[0] == c[0] {
        lemma_text_lt_transitive(a.drop_first(), b.drop_first(), c.drop_first());
    }
}

proof fn lemma_sorted_from_neighbours(names: Seq<&'static str>)
    requires
        forall|i: int| 0 <= i < names.len() - 1 ==> text_lt((#[trigger] names[i])@, names[i + 1]@),
    ensures
        lexically_sorted(names),
{
    assert forall|i: int, j: int| 0 <= i < j < names.len() implies text_lt(
        (#[trigger] names[i])@,
        (#[trigger] names[j])@,
    ) by {
        lemma_sorted_range(names, i, j);
    }
}

proof fn lemma_sorted_range(names: Seq<&'static str>, i: int, j: int)
    requires
        forall|k: int| 0 <= k < names.len() - 1 ==> text_lt((#[trigger] names[k])@, names[k + 1]@),
        0 <= i < j < names.len(),
    ensures
        text_lt(names[i]@, names[j]@),
    decreases j - i,
{
    if j > i + 1 {
        lemma_sorted_range(names, i, j - 1);
        assert(text_lt(names[j - 1]@, names[j]@));
        lemma_text_lt_transitive(names[i]@, names[j - 1]@, names[j]@);
    }
}

} // verus!
