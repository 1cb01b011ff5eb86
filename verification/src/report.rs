use vstd::prelude::*;
use vstd::std_specs::convert::FromSpecImpl;
use vstd::string::StringExecFns;

use crate::chars::chars_of;
use crate::format::{decimal, push_char, push_decimal};
use crate::corpus::{total_lines, Corpus};
use crate::metrics::{
    calculate_metrics,
    effective_total,
    groups_error,
    lemma_groups_valid,
    lemma_valid_occurrence,
    occurrence_key,
    redundant_total,
    source_line_total,
    MetricsError,
};
use crate::model::{DuplicateGroup, NormalizedLine, Occurrence, PreparedFile, StructuralContext, StructuralScope};
use crate::order::{
    bytes_lt,
    compare_bytes,
    key_rank_le,
    lemma_bytes_lt_irreflexive,
    lemma_bytes_lt_transitive,
    lemma_indices_cover,
    Comparison,
    lemma_sorted_indices,
    lemma_wide_pair_key,
    payloads,
    sort_by_key,
    sort_indices_by_text_and_rank,
    sorted_by_key,
    text_bytes,
    wide_pair_key,
};
use crate::outcome::ExitStatus;
use crate::paths::{components, join_slash, path_components, relative_result};

verus! {

/// Code of a duplicate-code finding.
pub const DUPLICATE_CODE: &'static str = "DUP001";

/// Version of the JSON report schema.
pub const JSON_SCHEMA_VERSION: u8 = 3;

/// How findings are presented.
#[derive(Debug, Clone, PartialEq, Eq)]
pub struct ReportOptions {
    /// Include the source text of each location.
    pub show_source: bool,
    /// Root removed from displayed paths; normally the project root, so
    /// diagnostics use short project-relative paths.
    pub path_root: Option<String>,
}

impl Default for ReportOptions {
    fn default() -> (options: Self)
        ensures
            !options.show_source,
            options.path_root is None,
    {
        ReportOptions { show_source: false, path_root: None }
    }
}

/// Structural kind of the duplicated code.
#[derive(Debug, Clone, Copy, PartialEq, Eq, Structural)]
pub enum FindingContext {
    Declarative,
    Executable,
    Mixed,
}

impl FindingContext {
    /// The lowercase name.
    pub fn as_str(self) -> (name: &'static str)
        ensures
            name@ == match self {
                FindingContext::Declarative => "declarative"@,
                FindingContext::Executable => "executable"@,
                FindingContext::Mixed => "mixed"@,
            },
    {
        match self {
            FindingContext::Declarative => "declarative",
            FindingContext::Executable => "executable",
            FindingContext::Mixed => "mixed",
        }
    }
}

pub open spec fn finding_context(context: StructuralContext) -> FindingContext {
    match context {
        StructuralContext::Declarative => FindingContext::Declarative,
        StructuralContext::Executable => FindingContext::Executable,
        StructuralContext::Mixed => FindingContext::Mixed,
    }
}

impl From<StructuralContext> for FindingContext {
    fn from(context: StructuralContext) -> (finding: Self) {
        match context {
            StructuralContext::Declarative => FindingContext::Declarative,
            StructuralContext::Executable => FindingContext::Executable,
            StructuralContext::Mixed => FindingContext::Mixed,
        }
    }
}

impl FromSpecImpl<StructuralContext> for FindingContext {
    open spec fn obeys_from_spec() -> bool {
        true
    }

    open spec fn from_spec(context: StructuralContext) -> FindingContext {
        finding_context(context)
    }
}

/// Structural scope of the duplicated code.
#[derive(Debug, Clone, Copy, PartialEq, Eq, Structural)]
pub enum FindingScope {
    Module,
    Class,
    Function,
    Mixed,
}

impl FindingScope {
    /// The lowercase name.
    pub fn as_str(self) -> (name: &'static str)
        ensures
            name@ == match self {
                FindingScope::Module => "module"@,
                FindingScope::Class => "class"@,
                FindingScope::Function => "function"@,
                FindingScope::Mixed => "mixed"@,
            },
    {
        match self {
            FindingScope::Module => "module",
            FindingScope::Class => "class",
            FindingScope::Function => "function",
            FindingScope::Mixed => "mixed",
        }
    }
}

pub open spec fn finding_scope(scope: StructuralScope) -> FindingScope {
    match scope {
        StructuralScope::Module => FindingScope::Module,
        StructuralScope::Class => FindingScope::Class,
        StructuralScope::Function => FindingScope::Function,
    }
}

impl From<StructuralScope> for FindingScope {
    fn from(scope: StructuralScope) -> (finding: Self) {
        match scope {
            StructuralScope::Module => FindingScope::Module,
            StructuralScope::Class => FindingScope::Class,
            StructuralScope::Function => FindingScope::Function,
        }
    }
}

impl FromSpecImpl<StructuralScope> for FindingScope {
    open spec fn obeys_from_spec() -> bool {
        true
    }

    open spec fn from_spec(scope: StructuralScope) -> FindingScope {
        finding_scope(scope)
    }
}

/// How the copies of a finding spread over files.
#[derive(Debug, Clone, Copy, PartialEq, Eq, Structural)]
pub enum FindingDistribution {
    /// All copies in one file.
    SameFile,
    /// Several files, one copy each.
    CrossFile,
    /// Several files, some with more than one copy.
    Mixed,
}

impl FindingDistribution {
    /// The kebab-case name.
    pub fn as_str(self) -> (name: &'static str)
        ensures
            name@ == match self {
                FindingDistribution::SameFile => "same-file"@,
                FindingDistribution::CrossFile => "cross-file"@,
                FindingDistribution::Mixed => "mixed"@,
            },
    {
        match self {
            FindingDistribution::SameFile => "same-file",
            FindingDistribution::CrossFile => "cross-file",
            FindingDistribution::Mixed => "mixed",
        }
    }
}

/// One copy of a finding: its displayed path, its one-based physical
/// lines, and optionally its source text.
#[derive(Debug, PartialEq, Eq)]
pub struct Location {
    pub path: String,
    pub start_line: u64,
    pub end_line: u64,
    pub source: Option<String>,
}

/// One duplicate group as reported.
#[derive(Debug, PartialEq, Eq)]
pub struct Finding {
    pub code: String,
    pub lines: u32,
    pub context: FindingContext,
    pub scope: FindingScope,
    pub occurrences: u32,
    pub files: u32,
    pub distribution: FindingDistribution,
    pub locations: Vec<Location>,
}

/// Why a report could not be built.
#[derive(Debug, PartialEq, Eq)]
pub enum ReportError {
    Metrics(MetricsError),
    UnknownFile { file: u32 },
    InvalidOccurrence { file: u32, start: u32, end: u64 },
}

/// The findings of a scan with its duplication counts.
#[derive(Debug, PartialEq, Eq)]
pub struct Report {
    pub version: u8,
    pub files: u64,
    pub source_lines: u64,
    pub analyzed_lines: u64,
    pub duplicate_groups: u64,
    pub duplicate_lines: u64,
    pub findings: Vec<Finding>,
}

impl Report {
    /// The report holds at least one finding.
    pub fn has_findings(&self) -> (found: bool)
        ensures
            found == (self.findings@.len() > 0),
    {
        self.findings.len() > 0
    }

    /// Findings end a run with the findings status, no findings with
    /// success.
    pub fn exit_status(&self) -> (status: ExitStatus)
        ensures
            status == if self.findings@.len() > 0 {
                ExitStatus::Findings
            } else {
                ExitStatus::Success
            },
    {
        if self.has_findings() {
            ExitStatus::Findings
        } else {
            ExitStatus::Success
        }
    }
}

// ----------------------------------------------------------------------
// Distribution over files.
/// Number of runs of equal files in `occurrences`: the number of distinct
/// files when they are sorted.
pub open spec fn file_runs(occurrences: Seq<Occurrence>) -> nat
    decreases occurrences.len(),
{
    if occurrences.len() == 0 {
        0
    } else {
        let init = occurrences.drop_last();
        file_runs(init) + if init.len() > 0 && init.last().file == occurrences.last().file {
            0nat
        } else {
            1nat
        }
    }
}

/// Two neighbours of `occurrences` lie in the same file.
pub open spec fn repeats_file(occurrences: Seq<Occurrence>) -> bool {
    exists|i: int| 0 < i < occurrences.len() && #[trigger] occurrences[i].file == occurrences[i - 1].file
}

/// The distribution of sorted occurrences over `files` files.
pub open spec fn distribution_of(occurrences: Seq<Occurrence>) -> FindingDistribution {
    if file_runs(occurrences) <= 1 {
        FindingDistribution::SameFile
    } else if repeats_file(occurrences) {
        FindingDistribution::Mixed
    } else {
        FindingDistribution::CrossFile
    }
}

/// Number of files of sorted occurrences and how the copies spread.
fn classify_distribution(occurrences: &Vec<Occurrence>) -> (classified: (u32, FindingDistribution))
    requires
        occurrences@.len() <= u32::MAX,
    ensures
        classified.0 == file_runs(occurrences@),
        classified.1 == distribution_of(occurrences@),
{
    let ghost occs = occurrences@;
    let mut file_count: u32 = 0;
    let mut previous: Option<u32> = None;
    let mut repeated = false;
    let mut i: usize = 0;
    while i < occurrences.len()
        invariant
            occs == occurrences@,
            occs.len() <= u32::MAX,
            i <= occs.len(),
            file_count == file_runs(occs.take(i as int)),
            file_count <= i,
            previous == if i == 0 {
                None::<u32>
            } else {
                Some(occs[i - 1].file)
            },
            repeated == exists|j: int| 0 < j < i && #[trigger] occs[j].file == occs[j - 1].file,
        decreases occs.len() - i,
    {
        let file = occurrences[i].file;
        proof {
            assert(occs.take(i + 1).drop_last() =~= occs.take(i as int));
        }
        if previous == Some(file) {
            repeated = true;
        } else {
            file_count = file_count + 1;
            previous = Some(file);
        }
        proof {
            if i > 0 && occs[i as int].file == occs[i - 1].file {
                assert(occs[i as int].file == occs[i as int - 1].file);
            }
        }
        i = i + 1;
    }
    proof {
        assert(occs.take(i as int) =~= occs);
    }
    let distribution = if file_count <= 1 {
        FindingDistribution::SameFile
    } else if repeated {
        FindingDistribution::Mixed
    } else {
        FindingDistribution::CrossFile
    };
    (file_count, distribution)
}

// ----------------------------------------------------------------------
// Structure of a copy.
/// The context of `lines`: theirs when they all agree, else mixed.
pub open spec fn lines_context(lines: Seq<NormalizedLine>) -> FindingContext {
    if forall|i: int| 0 <= i < lines.len() ==> (#[trigger] lines[i]).context == lines[0].context {
        finding_context(lines[0].context)
    } else {
        FindingContext::Mixed
    }
}

/// The scope of `lines`: theirs when they all agree, else mixed.
pub open spec fn lines_scope(lines: Seq<NormalizedLine>) -> FindingScope {
    if forall|i: int| 0 <= i < lines.len() ==> (#[trigger] lines[i]).scope == lines[0].scope {
        finding_scope(lines[0].scope)
    } else {
        FindingScope::Mixed
    }
}

/// Context and scope of the normalized lines `start..end`.
fn classify_lines(lines: &Vec<NormalizedLine>, start: usize, end: usize) -> (class: (FindingContext, FindingScope))
    requires
        start < end <= lines@.len(),
    ensures
        class.0 == lines_context(lines@.subrange(start as int, end as int)),
        class.1 == lines_scope(lines@.subrange(start as int, end as int)),
{
    let ghost part = lines@.subrange(start as int, end as int);
    let first_context = lines[start].context;
    let first_scope = lines[start].scope;
    let mut context = FindingContext::from(first_context);
    let mut scope = FindingScope::from(first_scope);
    let mut i = start + 1;
    while i < end
        invariant
            part == lines@.subrange(start as int, end as int),
            start < i <= end <= lines@.len(),
            first_context == part[0].context,
            first_scope == part[0].scope,
            context == if forall|k: int| 0 <= k < i - start ==> (#[trigger] part[k]).context == first_context {
                finding_context(first_context)
            } else {
                FindingContext::Mixed
            },
            scope == if forall|k: int| 0 <= k < i - start ==> (#[trigger] part[k]).scope == first_scope {
                finding_scope(first_scope)
            } else {
                FindingScope::Mixed
            },
        decreases end - i,
    {
        let line_context = lines[i].context;
        let line_scope = lines[i].scope;
        proof {
            assert(part[i - start] == lines@[i as int]);
        }
        if context != FindingContext::from(line_context) {
            context = FindingContext::Mixed;
        }
        if scope != FindingScope::from(line_scope) {
            scope = FindingScope::Mixed;
        }
        proof {
            let n = i - start;
            if forall|k: int| 0 <= k < n + 1 ==> (#[trigger] part[k]).context == first_context {
                assert(forall|k: int| 0 <= k < n ==> (#[trigger] part[k]).context == first_context);
                assert(part[n].context == first_context);
            } else {
                if forall|k: int| 0 <= k < n ==> (#[trigger] part[k]).context == first_context {
                    assert(part[n].context != first_context);
                }
            }
            if forall|k: int| 0 <= k < n + 1 ==> (#[trigger] part[k]).scope == first_scope {
                assert(forall|k: int| 0 <= k < n ==> (#[trigger] part[k]).scope == first_scope);
                assert(part[n].scope == first_scope);
            } else {
                if forall|k: int| 0 <= k < n ==> (#[trigger] part[k]).scope == first_scope {
                    assert(part[n].scope != first_scope);
                }
            }
        }
        i = i + 1;
    }
    (context, scope)
}

// ----------------------------------------------------------------------
// Source text of a copy.
/// The pieces of `s` between `\n` characters.
pub open spec fn split_newlines(s: Seq<char>) -> Seq<Seq<char>>
    decreases s.len(),
{
    if s.len() == 0 {
        seq![Seq::<char>::empty()]
    } else {
        let rest = split_newlines(s.drop_last());
        if s.last() == '\n' {
            rest.push(Seq::<char>::empty())
        } else {
            rest.update(rest.len() - 1, rest.last().push(s.last()))
        }
    }
}

/// `piece` without one trailing `\r`.
pub open spec fn without_cr(piece: Seq<char>) -> Seq<char> {
    if piece.len() > 0 && piece.last() == '\r' {
        piece.drop_last()
    } else {
        piece
    }
}

/// The lines `str::lines` yields for `s`: the pieces ended by `\n`,
/// without a `\r` before it, then a last unterminated piece if not empty.
pub open spec fn text_lines(s: Seq<char>) -> Seq<Seq<char>> {
    let pieces = split_newlines(s);
    let ended = pieces.len() - 1;
    Seq::new(ended as nat, |i: int| without_cr(pieces[i])) + if pieces.last().len() > 0 {
        seq![pieces.last()]
    } else {
        seq![]
    }
}

/// `pieces` joined with `\n`.
pub open spec fn join_lines(pieces: Seq<Seq<char>>) -> Seq<char>
    decreases pieces.len(),
{
    if pieces.len() == 0 {
        seq![]
    } else if pieces.len() == 1 {
        pieces[0]
    } else {
        join_lines(pieces.drop_last()) + seq!['\n'] + pieces.last()
    }
}

/// Source lines `start..=end` of `s`, zero-based and joined with `\n`;
/// every line from `start` on when `end` is before `start`.
pub open spec fn source_excerpt(s: Seq<char>, start: int, end: int) -> Seq<char> {
    let lines = text_lines(s);
    let stop = if end >= start && end + 1 < lines.len() {
        end + 1
    } else {
        lines.len() as int
    };
    if start >= lines.len() {
        seq![]
    } else {
        join_lines(lines.subrange(start, stop))
    }
}

proof fn lemma_split_newlines_len(s: Seq<char>)
    ensures
        split_newlines(s).len() >= 1,
    decreases s.len(),
{
    if s.len() > 0 {
        lemma_split_newlines_len(s.drop_last());
    }
}

/// The lines of `s` as `str::lines` yields them.
pub(crate) fn split_source_lines(chars: &Vec<char>) -> (lines: Vec<Vec<char>>)
    ensures
        lines@.len() == text_lines(chars@).len(),
        forall|i: int| 0 <= i < lines@.len() ==> (#[trigger] lines@[i])@ == text_lines(chars@)[i],
{
    let ghost s = chars@;
    let n = chars.len();
    let mut done: Vec<Vec<char>> = Vec::new();
    let mut line: Vec<char> = Vec::new();
    let mut p: usize = 0;
    proof {
        assert(s.take(0) =~= Seq::<char>::empty());
        assert(line@ =~= Seq::<char>::empty());
    }
    while p < n
        invariant
            s == chars@,
            n == s.len(),
            p <= n,
            split_newlines(s.take(p as int)).len() == done@.len() + 1,
            split_newlines(s.take(p as int)).last() == line@,
            forall|i: int| 0 <= i < done@.len() ==> (#[trigger] done@[i])@ == without_cr(split_newlines(s.take(p as int))[i]),
        decreases n - p,
    {
        let ghost pieces = split_newlines(s.take(p as int));
        proof {
            assert(s.take(p + 1).drop_last() =~= s.take(p as int));
            assert(s.take(p + 1).last() == s[p as int]);
        }
        let c = chars[p];
        if c == '\n' {
            let mut content = line;
            if content.len() > 0 && content[content.len() - 1] == '\r' {
                content.pop();
            }
            proof {
                assert(content@ == without_cr(pieces.last()));
            }
            done.push(content);
            line = Vec::new();
            proof {
                assert(line@ =~= Seq::<char>::empty());
                let next = split_newlines(s.take(p + 1));
                assert(next == pieces.push(Seq::<char>::empty()));
                assert forall|i: int| 0 <= i < done@.len() implies (#[trigger] done@[i])@ == without_cr(next[i]) by {
                    if i < done@.len() - 1 {
                        assert(next[i] == pieces[i]);
                    }
                }
            }
        } else {
            line.push(c);
            proof {
                let next = split_newlines(s.take(p + 1));
                assert(next == pieces.update(pieces.len() - 1, pieces.last().push(c)));
                assert forall|i: int| 0 <= i < done@.len() implies (#[trigger] done@[i])@ == without_cr(next[i]) by {
                    assert(next[i] == pieces[i]);
                }
            }
        }
        p = p + 1;
    }
    proof {
        assert(s.take(n as int) =~= s);
    }
    let ghost ended = done@.len();
    if line.len() > 0 {
        done.push(line);
    }
    proof {
        let pieces = split_newlines(s);
        let expected = text_lines(s);
        assert(expected.len() == done@.len());
        assert forall|i: int| 0 <= i < done@.len() implies (#[trigger] done@[i])@ == expected[i] by {
            if i < ended {
                assert(expected[i] == without_cr(pieces[i]));
            }
        }
    }
    done
}

/// The physical lines `start..=end` of `source`, zero-based, joined with
/// `\n`; every line from `start` on when `end` is before `start`.
fn extract_source(source: &str, start: u32, end: u32) -> (excerpt: String)
    ensures
        excerpt@ == source_excerpt(source@, start as int, end as int),
{
    let chars = chars_of(source);
    let lines = split_source_lines(&chars);
    let ghost all = text_lines(source@);
    let count = lines.len();
    let first = start as usize;
    let stop: usize = if end >= start && (end as usize) < count {
        end as usize + 1
    } else {
        count
    };
    let mut out = String::new();
    if first >= count {
        return out;
    }
    let mut k = first;
    proof {
        assert(all.subrange(first as int, first as int) =~= Seq::<Seq<char>>::empty());
        assert(out@ =~= Seq::<char>::empty());
    }
    while k < stop
        invariant
            lines@.len() == all.len(),
            forall|i: int| 0 <= i < lines@.len() ==> (#[trigger] lines@[i])@ == all[i],
            count == all.len(),
            first < count,
            first <= k <= stop <= count,
            out@ == join_lines(all.subrange(first as int, k as int)),
        decreases stop - k,
    {
        let ghost before = out@;
        if k > first {
            push_char(&mut out, '\n');
        }
        let line = &lines[k];
        let mut i: usize = 0;
        let ghost with_separator = out@;
        while i < line.len()
            invariant
                i <= line@.len(),
                out@ == with_separator + line@.take(i as int),
            decreases line@.len() - i,
        {
            push_char(&mut out, line[i]);
            proof {
                assert(line@.take(i + 1) =~= line@.take(i as int).push(line@[i as int]));
            }
            i = i + 1;
        }
        proof {
            assert(line@.take(i as int) =~= line@);
            let part = all.subrange(first as int, k + 1);
            assert(part.drop_last() =~= all.subrange(first as int, k as int));
            assert(part.last() == all[k as int]);
            if k == first {
                assert(part.len() == 1);
                assert(out@ =~= join_lines(part));
            }
        }
        k = k + 1;
    }
    out
}

// ----------------------------------------------------------------------
// Displayed paths.
/// The path shown for `path`: its components after those of `root` when
/// they begin it, joined with `/`; the path itself otherwise or without a
/// root.
pub open spec fn displayed_path(path: Seq<char>, root: Option<Seq<char>>) -> Seq<char> {
    match root {
        None => path,
        Some(r) => if path_components(r).len() == 0 {
            path
        } else {
            match relative_result(path, r) {
                Some(rest) => join_slash(rest),
                None => path,
            }
        },
    }
}

/// The root option as a view.
pub open spec fn root_view(root: Option<String>) -> Option<Seq<char>> {
    match root {
        Some(r) => Some(r@),
        None => None,
    }
}

/// Appends `piece` to `out`.
fn append_chars(out: &mut String, piece: &str)
    ensures
        final(out)@ == old(out)@ + piece@,
{
    out.append(piece);
}

fn display_path(path: &str, root: &Option<String>) -> (shown: String)
    ensures
        shown@ == displayed_path(path@, root_view(*root)),
{
    let r = match root {
        Some(r) => r,
        None => {
            return path.to_owned();
        },
    };
    let path_parts = components(path);
    let root_parts = components(r.as_str());
    let ghost pc = path_components(path@);
    let ghost rc = path_components(r@);
    let ghost target = displayed_path(path@, root_view(*root));
    if root_parts.len() == 0 {
        return path.to_owned();
    }
    if root_parts.len() > path_parts.len() {
        return path.to_owned();
    }
    let mut k: usize = 0;
    while k < root_parts.len()
        invariant
            path_parts@.len() == pc.len(),
            forall|i: int| 0 <= i < path_parts@.len() ==> #[trigger] path_parts@[i]@ == pc[i],
            root_parts@.len() == rc.len(),
            forall|i: int| 0 <= i < root_parts@.len() ==> #[trigger] root_parts@[i]@ == rc[i],
            root_parts@.len() <= path_parts@.len(),
            pc == path_components(path@),
            rc == path_components(r@),
            rc.len() > 0,
            target == displayed_path(path@, Some(r@)),
            target == displayed_path(path@, root_view(*root)),
            k <= root_parts@.len(),
            forall|i: int| 0 <= i < k ==> pc[i] == rc[i],
        decreases root_parts@.len() - k,
    {
        if path_parts[k] != root_parts[k] {
            proof {
                assert(pc.take(rc.len() as int)[k as int] != rc[k as int]);
                assert(pc.take(rc.len() as int) != rc);
                assert(relative_result(path@, r@) is None);
            }
            return path.to_owned();
        }
        k = k + 1;
    }
    proof {
        assert(pc.take(rc.len() as int) =~= rc);
    }
    let ghost rest = pc.skip(rc.len() as int);
    let mut shown = String::new();
    let mut j = k;
    proof {
        assert(rest.take(0) =~= Seq::<Seq<char>>::empty());
        assert(shown@ =~= join_slash(rest.take(0)));
    }
    while j < path_parts.len()
        invariant
            path_parts@.len() == pc.len(),
            forall|i: int| 0 <= i < path_parts@.len() ==> #[trigger] path_parts@[i]@ == pc[i],
            k == rc.len(),
            k <= j <= pc.len(),
            rest == pc.skip(k as int),
            shown@ == join_slash(rest.take(j - k)),
        decreases pc.len() - j,
    {
        if j > k {
            push_char(&mut shown, '/');
        }
        append_chars(&mut shown, path_parts[j].as_str());
        proof {
            let part = rest.take(j - k + 1);
            assert(part.drop_last() =~= rest.take(j - k));
            assert(part.last() == pc[j as int]);
            if j == k {
                assert(shown@ =~= join_slash(part));
            }
        }
        j = j + 1;
    }
    proof {
        assert(rest.take(j - k) =~= rest);
    }
    shown
}

// ----------------------------------------------------------------------
// Locations.
/// What is wrong with occurrence `o`, if anything: an unknown file, or a
/// range that is empty or leaves its file.
pub open spec fn location_error(files: Seq<PreparedFile>, o: Occurrence) -> Option<ReportError> {
    if o.file >= files.len() {
        Some(ReportError::UnknownFile { file: o.file })
    } else if o.normalized_len == 0 || o.normalized_start + o.normalized_len > files[o.file as int].lines@.len() {
        Some(
            ReportError::InvalidOccurrence {
                file: o.file,
                start: o.normalized_start,
                end: (o.normalized_start + o.normalized_len) as u64,
            },
        )
    } else {
        None
    }
}

/// The normalized lines an occurrence covers.
pub open spec fn occurrence_lines(files: Seq<PreparedFile>, o: Occurrence) -> Seq<NormalizedLine> {
    files[o.file as int].lines@.subrange(o.normalized_start as int, o.normalized_start + o.normalized_len)
}

/// The values of a location.
pub type LocationView = (Seq<char>, u64, u64, Option<Seq<char>>);

pub open spec fn location_view(l: Location) -> LocationView {
    (
        l.path@,
        l.start_line,
        l.end_line,
        match l.source {
            Some(text) => Some(text@),
            None => None,
        },
    )
}

/// The location reported for occurrence `o`.
pub open spec fn expected_location(files: Seq<PreparedFile>, o: Occurrence, options: ReportOptions) -> LocationView {
    let file = files[o.file as int];
    let lines = occurrence_lines(files, o);
    let first = lines[0].source_line;
    let last = lines[lines.len() - 1].source_line;
    (
        displayed_path(file.path@, root_view(options.path_root)),
        (first + 1) as u64,
        (last + 1) as u64,
        if options.show_source {
            Some(source_excerpt(file.source@, first as int, last as int))
        } else {
            None
        },
    )
}

/// The location of occurrence `o` with the context and scope of its lines.
fn build_location(files: &Vec<PreparedFile>, o: Occurrence, options: &ReportOptions) -> (result: Result<
    (Location, FindingContext, FindingScope),
    ReportError,
>)
    ensures
        match location_error(files@, o) {
            Some(e) => result == Err::<(Location, FindingContext, FindingScope), ReportError>(e),
            None => result matches Ok((location, context, scope)) && location_view(location)
                == expected_location(files@, o, *options) && context == lines_context(
                occurrence_lines(files@, o),
            ) && scope == lines_scope(occurrence_lines(files@, o)),
        },
{
    let index = o.file as usize;
    if index >= files.len() {
        return Err(ReportError::UnknownFile { file: o.file });
    }
    let file = &files[index];
    let start = o.normalized_start as usize;
    let end: u64 = o.normalized_start as u64 + o.normalized_len as u64;
    if o.normalized_len == 0 || end > file.lines.len() as u64 {
        return Err(ReportError::InvalidOccurrence { file: o.file, start: o.normalized_start, end });
    }
    let stop = end as usize;
    let (context, scope) = classify_lines(&file.lines, start, stop);
    let first = file.lines[start].source_line;
    let last = file.lines[stop - 1].source_line;
    let source = if options.show_source {
        Some(extract_source(file.source.as_str(), first, last))
    } else {
        None
    };
    let location = Location {
        path: display_path(file.path.as_str(), &options.path_root),
        start_line: first as u64 + 1,
        end_line: last as u64 + 1,
        source,
    };
    Ok((location, context, scope))
}

// ----------------------------------------------------------------------
// Findings.
/// `order` lists each index below `n` once.
pub open spec fn is_permutation(order: Seq<usize>, n: int) -> bool {
    &&& order.len() == n
    &&& order.no_duplicates()
    &&& forall|r: int| 0 <= r < order.len() ==> #[trigger] order[r] < n
}

/// `sorted` holds the occurrences `occurrences` in key order.
pub open spec fn sorts_occurrences(sorted: Seq<Occurrence>, occurrences: Seq<Occurrence>) -> bool {
    &&& sorted.len() == occurrences.len()
    &&& forall|a: int, b: int| 0 <= a < b < sorted.len() ==> occurrence_key(#[trigger] sorted[a]) <= occurrence_key(#[trigger] sorted[b])
    &&& exists|order: Seq<usize>|
        is_permutation(order, occurrences.len() as int) && forall|r: int|
            0 <= r < sorted.len() ==> #[trigger] sorted[r] == occurrences[order[r] as int]
}

/// The context of a finding: that of all its copies when they agree, else
/// mixed.
pub open spec fn copies_context(files: Seq<PreparedFile>, occurrences: Seq<Occurrence>) -> FindingContext {
    let first = lines_context(occurrence_lines(files, occurrences[0]));
    if forall|k: int| 0 <= k < occurrences.len() ==> lines_context(occurrence_lines(files, #[trigger] occurrences[k])) == first {
        first
    } else {
        FindingContext::Mixed
    }
}

/// The scope of a finding: that of all its copies when they agree, else
/// mixed.
pub open spec fn copies_scope(files: Seq<PreparedFile>, occurrences: Seq<Occurrence>) -> FindingScope {
    let first = lines_scope(occurrence_lines(files, occurrences[0]));
    if forall|k: int| 0 <= k < occurrences.len() ==> lines_scope(occurrence_lines(files, #[trigger] occurrences[k])) == first {
        first
    } else {
        FindingScope::Mixed
    }
}

/// Order of locations: by path bytes, then start line, then end line.
pub open spec fn location_le(a: LocationView, b: LocationView) -> bool {
    key_rank_le(text_bytes(a.0), wide_pair_key(a.1 as int, a.2 as int), text_bytes(b.0), wide_pair_key(b.1 as int, b.2 as int))
}

/// `locations` hold the values `expected[order[r]]`.
pub open spec fn placed_by(locations: Seq<Location>, expected: Seq<LocationView>, order: Seq<usize>) -> bool {
    &&& is_permutation(order, expected.len() as int)
    &&& locations.len() == expected.len()
    &&& forall|r: int| 0 <= r < locations.len() ==> location_view(#[trigger] locations[r]) == expected[order[r] as int]
}

/// `locations` are the location values `expected`, reordered, in
/// location order.
pub open spec fn sorted_locations(locations: Seq<Location>, expected: Seq<LocationView>) -> bool {
    &&& forall|a: int, b: int| 0 <= a < b < locations.len() ==> location_le(location_view(#[trigger] locations[a]), location_view(#[trigger] locations[b]))
    &&& exists|order: Seq<usize>| #[trigger] placed_by(locations, expected, order)
}

/// `finding` reports `group`, whose occurrences lie in `files`.
pub open spec fn reports_group(finding: Finding, group: DuplicateGroup, files: Seq<PreparedFile>, options: ReportOptions) -> bool {
    exists|sorted: Seq<Occurrence>|
        {
            &&& sorts_occurrences(sorted, group.occurrences@)
            &&& finding.code@ == DUPLICATE_CODE@
            &&& finding.lines == group.effective_lines
            &&& finding.occurrences == sorted.len()
            &&& finding.files == file_runs(sorted)
            &&& finding.distribution == distribution_of(sorted)
            &&& finding.context == copies_context(files, sorted)
            &&& finding.scope == copies_scope(files, sorted)
            &&& sorted_locations(
                finding.locations@,
                Seq::new(sorted.len(), |i: int| expected_location(files, sorted[i], options)),
            )
        }
}

/// The occurrences of a group in key order.
fn sort_occurrences(occurrences: &Vec<Occurrence>) -> (sorted: Vec<Occurrence>)
    ensures
        sorted@.len() == occurrences@.len(),
        sorts_occurrences(sorted@, occurrences@),
{
    let mut items: Vec<(u128, usize)> = Vec::new();
    let mut i: usize = 0;
    while i < occurrences.len()
        invariant
            i <= occurrences@.len(),
            items@.len() == i,
            forall|k: int| 0 <= k < i ==> #[trigger] items@[k] == (occurrence_key(occurrences@[k]) as u128, k as usize),
        decreases occurrences@.len() - i,
    {
        items.push((occurrence_key_value(occurrences[i]), i));
        i = i + 1;
    }
    let ordered = sort_by_key(&items);
    proof {
        lemma_sorted_indices(items@, ordered@);
    }
    let mut sorted: Vec<Occurrence> = Vec::new();
    let mut r: usize = 0;
    while r < ordered.len()
        invariant
            ordered@.len() == items@.len(),
            items@.len() == occurrences@.len(),
            forall|k: int| 0 <= k < items@.len() ==> #[trigger] items@[k] == (occurrence_key(occurrences@[k]) as u128, k as usize),
            forall|q: int| 0 <= q < ordered@.len() ==> (#[trigger] ordered@[q]).1 < items@.len() && ordered@[q] == items@[ordered@[q].1 as int],
            r <= ordered@.len(),
            sorted@.len() == r,
            forall|q: int| 0 <= q < r ==> #[trigger] sorted@[q] == occurrences@[ordered@[q].1 as int],
        decreases ordered@.len() - r,
    {
        sorted.push(occurrences[ordered[r].1]);
        r = r + 1;
    }
    proof {
        let order = payloads(ordered@);
        assert(is_permutation(order, occurrences@.len() as int));
        assert forall|q: int| 0 <= q < sorted@.len() implies #[trigger] sorted@[q] == occurrences@[order[q] as int] by {
            assert(order[q] == ordered@[q].1);
        }
        assert forall|a: int, b: int| 0 <= a < b < sorted@.len() implies occurrence_key(#[trigger] sorted@[a]) <= occurrence_key(#[trigger] sorted@[b]) by {
            assert(sorted_by_key(ordered@));
            assert(ordered@[a].0 <= ordered@[b].0);
            assert(ordered@[a] == items@[ordered@[a].1 as int]);
            assert(ordered@[b] == items@[ordered@[b].1 as int]);
        }
    }
    sorted
}

/// The sort key of occurrence `o` as a machine integer.
fn occurrence_key_value(o: Occurrence) -> (key: u128)
    ensures
        key as int == occurrence_key(o),
{
    let file = o.file as u128;
    let start = o.normalized_start as u128;
    let len = o.normalized_len as u128;
    assert(file * 4294967296 <= 4294967295 * 4294967296) by (nonlinear_arith)
        requires
            file <= 4294967295,
    ;
    let head = file * 4294967296 + start;
    assert(head * 4294967296 <= 18446744073709551615 * 4294967296) by (nonlinear_arith)
        requires
            head <= 18446744073709551615,
    ;
    head * 4294967296 + len
}

/// Places `items[order[r]]` at `r`.
fn permute_locations(items: Vec<Location>, order: &Vec<usize>) -> (permuted: Vec<Location>)
    requires
        is_permutation(order@, items@.len() as int),
    ensures
        permuted@.len() == items@.len(),
        forall|r: int| 0 <= r < permuted@.len() ==> location_view(#[trigger] permuted@[r]) == location_view(items@[order@[r] as int]),
{
    let ghost original = items@;
    let mut source = items;
    let mut permuted: Vec<Location> = Vec::new();
    let mut r: usize = 0;
    while r < order.len()
        invariant
            is_permutation(order@, original.len() as int),
            source@.len() == original.len(),
            r <= order@.len(),
            permuted@.len() == r,
            forall|q: int| 0 <= q < r ==> location_view(#[trigger] permuted@[q]) == location_view(original[order@[q] as int]),
            forall|i: int| 0 <= i < original.len() && !order@.take(r as int).contains(i as usize) ==> #[trigger] source@[i] == original[i],
        decreases order@.len() - r,
    {
        let index = order[r];
        let mut slot = Location { path: String::new(), start_line: 0, end_line: 0, source: None };
        proof {
            assert(!order@.take(r as int).contains(index)) by {
                if order@.take(r as int).contains(index) {
                    let w = choose|w: int| 0 <= w < r && order@.take(r as int)[w] == index;
                    assert(order@[w] == order@[r as int]);
                }
            }
        }
        let ghost before = source@;
        source.set_and_swap(index, &mut slot);
        permuted.push(slot);
        proof {
            assert(order@.take(r + 1)[r as int] == index);
            assert forall|i: int| 0 <= i < original.len() && !order@.take(r + 1).contains(i as usize) implies #[trigger] source@[i] == original[i] by {
                assert(i != index);
                assert(!order@.take(r as int).contains(i as usize)) by {
                    if order@.take(r as int).contains(i as usize) {
                        let w = choose|w: int| 0 <= w < r && order@.take(r as int)[w] == i as usize;
                        assert(order@.take(r + 1)[w] == i as usize);
                    }
                }
            }
        }
        r = r + 1;
    }
    permuted
}

/// `locations` in location order.
fn sort_locations(locations: Vec<Location>) -> (sorted: Vec<Location>)
    ensures
        sorted@.len() == locations@.len(),
        sorted_locations(sorted@, locations@.map_values(|l: Location| location_view(l))),
{
    let ghost views = locations@.map_values(|l: Location| location_view(l));
    let mut keys: Vec<String> = Vec::new();
    let mut ranks: Vec<u128> = Vec::new();
    let mut i: usize = 0;
    while i < locations.len()
        invariant
            i <= locations@.len(),
            keys@.len() == i,
            ranks@.len() == i,
            forall|k: int| 0 <= k < i ==> (#[trigger] keys@[k])@ == locations@[k].path@,
            forall|k: int| 0 <= k < i ==> #[trigger] ranks@[k] as int == wide_pair_key(locations@[k].start_line as int, locations@[k].end_line as int),
        decreases locations@.len() - i,
    {
        keys.push(locations[i].path.clone());
        let start = locations[i].start_line as u128;
        let end = locations[i].end_line as u128;
        assert(start * 18446744073709551616 <= 18446744073709551615 * 18446744073709551616) by (nonlinear_arith)
            requires
                start <= 18446744073709551615,
        ;
        ranks.push(start * 18446744073709551616u128 + end);
        i = i + 1;
    }
    let order = sort_indices_by_text_and_rank(&keys, &ranks);
    proof {
        assert(is_permutation(order@, locations@.len() as int));
    }
    let ghost original = locations@;
    let sorted = permute_locations(locations, &order);
    proof {
        assert forall|a: int, b: int| 0 <= a < b < sorted@.len() implies location_le(location_view(#[trigger] sorted@[a]), location_view(#[trigger] sorted@[b])) by {
            let ia = order@[a] as int;
            let ib = order@[b] as int;
            assert(location_view(sorted@[a]) == location_view(original[ia]));
            assert(location_view(sorted@[b]) == location_view(original[ib]));
            assert(keys@[ia]@ == original[ia].path@ && keys@[ib]@ == original[ib].path@);
        }
        assert forall|r: int| 0 <= r < sorted@.len() implies location_view(#[trigger] sorted@[r]) == views[order@[r] as int] by {
            assert(location_view(sorted@[r]) == location_view(original[order@[r] as int]));
        }
        assert(placed_by(sorted@, views, order@));
    }
    sorted
}

/// `o` is one of `occurrences`.
pub open spec fn listed(occurrences: Seq<Occurrence>, o: Occurrence) -> bool {
    exists|r: int| 0 <= r < occurrences.len() && occurrences[r] == o
}

/// The finding of `group`, or the error of its first faulty occurrence in
/// key order.
fn build_finding(files: &Vec<PreparedFile>, group: &DuplicateGroup, options: &ReportOptions) -> (result: Result<
    Finding,
    ReportError,
>)
    requires
        group.occurrences@.len() > 0,
        group.occurrences@.len() <= u32::MAX,
    ensures
        result is Err <==> exists|k: int|
            0 <= k < group.occurrences@.len() && location_error(files@, #[trigger] group.occurrences@[k]) is Some,
        result matches Err(e) ==> exists|k: int|
            0 <= k < group.occurrences@.len() && location_error(files@, #[trigger] group.occurrences@[k]) == Some(e)
                && forall|j: int|
                0 <= j < group.occurrences@.len() && occurrence_key(group.occurrences@[j]) < occurrence_key(
                    group.occurrences@[k],
                ) ==> location_error(files@, #[trigger] group.occurrences@[j]) is None,
        result matches Ok(finding) ==> reports_group(finding, *group, files@, *options),
        result matches Ok(finding) ==> finding.locations@.len() == group.occurrences@.len(),
{
    let ghost occs = group.occurrences@;
    let sorted = sort_occurrences(&group.occurrences);
    let ghost ss = sorted@;
    let ghost order = choose|order: Seq<usize>|
        is_permutation(order, occs.len() as int) && forall|r: int| 0 <= r < ss.len() ==> #[trigger] ss[r] == occs[order[r] as int];
    proof {
        assert forall|j: int| 0 <= j < occs.len() implies listed(ss, #[trigger] occs[j]) by {
            lemma_indices_cover(order, occs.len() as int, j);
            let r = choose|r: int| 0 <= r < order.len() && order[r] == j as usize;
            assert(ss[r] == occs[j]);
        }
        assert forall|r: int| 0 <= r < ss.len() implies listed(occs, #[trigger] ss[r]) by {
            assert(ss[r] == occs[order[r] as int]);
        }
    }
    let (file_count, distribution) = classify_distribution(&sorted);
    let mut context: Option<FindingContext> = None;
    let mut scope: Option<FindingScope> = None;
    let mut locations: Vec<Location> = Vec::new();
    let mut k: usize = 0;
    while k < sorted.len()
        invariant
            ss == sorted@,
            ss.len() == occs.len(),
            occs == group.occurrences@,
            sorts_occurrences(ss, occs),
            forall|j: int| 0 <= j < occs.len() ==> listed(ss, #[trigger] occs[j]),
            forall|r: int| 0 <= r < ss.len() ==> listed(occs, #[trigger] ss[r]),
            k <= ss.len(),
            forall|r: int| 0 <= r < k ==> location_error(files@, #[trigger] ss[r]) is None,
            locations@.len() == k,
            forall|r: int| 0 <= r < k ==> location_view(#[trigger] locations@[r]) == expected_location(files@, ss[r], *options),
            k == 0 ==> context is None && scope is None,
            k > 0 ==> context == Some(copies_context(files@, ss.take(k as int))) && scope == Some(copies_scope(files@, ss.take(k as int))),
        decreases ss.len() - k,
    {
        let o = sorted[k];
        match build_location(files, o, options) {
            Ok((location, c, sc)) => {
                proof {
                    let n = k as int;
                    let part = ss.take(n + 1);
                    assert(part[0] == ss[0]);
                    assert(part[n] == o);
                    if n > 0 {
                        let prev = ss.take(n);
                        assert(prev[0] == ss[0]);
                        assert forall|q: int| 0 <= q < n implies #[trigger] part[q] == prev[q] by {}
                        let first_c = lines_context(occurrence_lines(files@, ss[0]));
                        let first_s = lines_scope(occurrence_lines(files@, ss[0]));
                        if forall|q: int| 0 <= q < n + 1 ==> lines_context(occurrence_lines(files@, #[trigger] part[q])) == first_c {
                            assert forall|q: int| 0 <= q < n implies lines_context(occurrence_lines(files@, #[trigger] prev[q])) == first_c by {
                                assert(part[q] == prev[q]);
                            }
                        } else {
                            let q = choose|q: int| 0 <= q < n + 1 && lines_context(occurrence_lines(files@, #[trigger] part[q])) != first_c;
                            if q < n {
                                assert(part[q] == prev[q]);
                            }
                        }
                        if forall|q: int| 0 <= q < n + 1 ==> lines_scope(occurrence_lines(files@, #[trigger] part[q])) == first_s {
                            assert forall|q: int| 0 <= q < n implies lines_scope(occurrence_lines(files@, #[trigger] prev[q])) == first_s by {
                                assert(part[q] == prev[q]);
                            }
                        } else {
                            let q = choose|q: int| 0 <= q < n + 1 && lines_scope(occurrence_lines(files@, #[trigger] part[q])) != first_s;
                            if q < n {
                                assert(part[q] == prev[q]);
                            }
                        }
                    }
                }
                context = Some(
                    match context {
                        None => c,
                        Some(current) => if current == c {
                            current
                        } else {
                            FindingContext::Mixed
                        },
                    },
                );
                scope = Some(
                    match scope {
                        None => sc,
                        Some(current) => if current == sc {
                            current
                        } else {
                            FindingScope::Mixed
                        },
                    },
                );
                locations.push(location);
            },
            Err(e) => {
                proof {
                    assert(listed(occs, ss[k as int]));
                    let j0 = choose|j: int| 0 <= j < occs.len() && occs[j] == ss[k as int];
                    assert(location_error(files@, occs[j0]) == Some(e));
                    assert forall|j: int|
                        0 <= j < occs.len() && occurrence_key(occs[j]) < occurrence_key(occs[j0]) implies location_error(
                        files@,
                        #[trigger] occs[j],
                    ) is None by {
                        assert(listed(ss, occs[j]));
                        let r = choose|r: int| 0 <= r < ss.len() && ss[r] == occs[j];
                        if r >= k {
                            if r > k {
                                assert(occurrence_key(ss[k as int]) <= occurrence_key(ss[r]));
                            }
                        }
                    }
                }
                return Err(e);
            },
        }
        k = k + 1;
    }
    proof {
        assert(ss.take(k as int) =~= ss);
        assert forall|j: int| 0 <= j < occs.len() implies location_error(files@, #[trigger] occs[j]) is None by {
            assert(listed(ss, occs[j]));
            let r = choose|r: int| 0 <= r < ss.len() && ss[r] == occs[j];
            assert(location_error(files@, ss[r]) is None);
        }
        let expected = Seq::new(ss.len(), |i: int| expected_location(files@, ss[i], *options));
        assert(locations@.map_values(|l: Location| location_view(l)) =~= expected);
    }
    let locations = sort_locations(locations);
    let finding = Finding {
        code: DUPLICATE_CODE.to_owned(),
        lines: group.effective_lines,
        context: match context {
            Some(c) => c,
            None => FindingContext::Executable,
        },
        scope: match scope {
            Some(sc) => sc,
            None => FindingScope::Module,
        },
        occurrences: sorted.len() as u32,
        files: file_count,
        distribution,
        locations,
    };
    proof {
        assert(reports_group(finding, *group, files@, *options)) by {
            assert(sorts_occurrences(ss, group.occurrences@));
        }
    }
    Ok(finding)
}

// ----------------------------------------------------------------------
// Order of findings.
/// Location `a` sorts before `b`: by path bytes, then start, then end.
pub open spec fn location_lt(a: Location, b: Location) -> bool {
    let pa = text_bytes(a.path@);
    let pb = text_bytes(b.path@);
    ||| bytes_lt(pa, pb)
    ||| pa == pb && a.start_line < b.start_line
    ||| pa == pb && a.start_line == b.start_line && a.end_line < b.end_line
}

/// Locations `a` and `b` sort as equal.
pub open spec fn location_same(a: Location, b: Location) -> bool {
    text_bytes(a.path@) == text_bytes(b.path@) && a.start_line == b.start_line && a.end_line == b.end_line
}

/// Location lists compared element by element, a shorter prefix first.
pub open spec fn locations_lt(a: Seq<Location>, b: Seq<Location>) -> bool
    decreases a.len(),
{
    if a.len() == 0 {
        b.len() > 0
    } else if b.len() == 0 {
        false
    } else if location_lt(a[0], b[0]) {
        true
    } else if location_same(a[0], b[0]) {
        locations_lt(a.drop_first(), b.drop_first())
    } else {
        false
    }
}

/// Finding `x` sorts before `y`: by the path and start line of the first
/// location, then more lines first, then by all locations.
pub open spec fn finding_lt(x: Finding, y: Finding) -> bool {
    let a = x.locations@[0];
    let b = y.locations@[0];
    let pa = text_bytes(a.path@);
    let pb = text_bytes(b.path@);
    ||| bytes_lt(pa, pb)
    ||| pa == pb && a.start_line < b.start_line
    ||| pa == pb && a.start_line == b.start_line && x.lines > y.lines
    ||| pa == pb && a.start_line == b.start_line && x.lines == y.lines && locations_lt(x.locations@, y.locations@)
}

proof fn lemma_location_order(a: Location, b: Location, c: Location)
    ensures
        !location_lt(a, a),
        location_lt(a, b) && location_lt(b, c) ==> location_lt(a, c),
        location_lt(a, b) && location_same(b, c) ==> location_lt(a, c),
        location_same(a, b) && location_lt(b, c) ==> location_lt(a, c),
        location_same(a, b) && location_same(b, c) ==> location_same(a, c),
{
    let (pa, pb, pc) = (text_bytes(a.path@), text_bytes(b.path@), text_bytes(c.path@));
    lemma_bytes_lt_irreflexive(pa);
    if bytes_lt(pa, pb) && bytes_lt(pb, pc) {
        lemma_bytes_lt_transitive(pa, pb, pc);
    }
}

proof fn lemma_locations_order(a: Seq<Location>, b: Seq<Location>, c: Seq<Location>)
    ensures
        !locations_lt(a, a),
        locations_lt(a, b) && locations_lt(b, c) ==> locations_lt(a, c),
    decreases a.len(),
{
    if a.len() > 0 {
        lemma_location_order(a[0], a[0], a[0]);
        lemma_locations_order(a.drop_first(), a.drop_first(), a.drop_first());
        if b.len() > 0 && c.len() > 0 {
            lemma_location_order(a[0], b[0], c[0]);
            lemma_locations_order(a.drop_first(), b.drop_first(), c.drop_first());
        }
    }
}

proof fn lemma_finding_order(x: Finding, y: Finding, z: Finding)
    ensures
        !finding_lt(x, x),
        finding_lt(x, y) && finding_lt(y, z) ==> finding_lt(x, z),
{
    let (a, b, c) = (x.locations@[0], y.locations@[0], z.locations@[0]);
    let (pa, pb, pc) = (text_bytes(a.path@), text_bytes(b.path@), text_bytes(c.path@));
    lemma_bytes_lt_irreflexive(pa);
    if bytes_lt(pa, pb) && bytes_lt(pb, pc) {
        lemma_bytes_lt_transitive(pa, pb, pc);
    }
    lemma_locations_order(x.locations@, x.locations@, x.locations@);
    lemma_locations_order(x.locations@, y.locations@, z.locations@);
}

/// Compares two locations.
fn compare_location(a: &Location, b: &Location) -> (result: Comparison)
    ensures
        result == Comparison::Less <==> location_lt(*a, *b),
        result == Comparison::Equal <==> location_same(*a, *b),
        result == Comparison::Greater <==> location_lt(*b, *a),
{
    proof {
        lemma_location_order(*a, *b, *a);
        crate::order::lemma_bytes_lt_asymmetric(text_bytes(a.path@), text_bytes(b.path@));
        crate::order::lemma_bytes_lt_total(text_bytes(a.path@), text_bytes(b.path@));
    }
    match compare_bytes(a.path.as_str().as_bytes(), b.path.as_str().as_bytes()) {
        Comparison::Less => Comparison::Less,
        Comparison::Greater => Comparison::Greater,
        Comparison::Equal => {
            if a.start_line < b.start_line {
                Comparison::Less
            } else if a.start_line > b.start_line {
                Comparison::Greater
            } else if a.end_line < b.end_line {
                Comparison::Less
            } else if a.end_line > b.end_line {
                Comparison::Greater
            } else {
                Comparison::Equal
            }
        },
    }
}

/// Location list `a` sorts before `b`.
fn locations_before(a: &Vec<Location>, b: &Vec<Location>) -> (before: bool)
    ensures
        before == locations_lt(a@, b@),
{
    let mut i: usize = 0;
    proof {
        assert(a@.skip(0) =~= a@);
        assert(b@.skip(0) =~= b@);
    }
    while i < a.len() && i < b.len()
        invariant
            i <= a@.len(),
            i <= b@.len(),
            locations_lt(a@, b@) == locations_lt(a@.skip(i as int), b@.skip(i as int)),
        decreases a@.len() - i,
    {
        let ghost (sa, sb) = (a@.skip(i as int), b@.skip(i as int));
        proof {
            assert(sa[0] == a@[i as int] && sb[0] == b@[i as int]);
            assert(sa.drop_first() =~= a@.skip(i + 1));
            assert(sb.drop_first() =~= b@.skip(i + 1));
        }
        match compare_location(&a[i], &b[i]) {
            Comparison::Less => {
                return true;
            },
            Comparison::Greater => {
                proof {
                    lemma_location_order(sb[0], sa[0], sb[0]);
                }
                return false;
            },
            Comparison::Equal => {},
        }
        i = i + 1;
    }
    b.len() > i
}

/// Finding `x` sorts before `y`.
fn finding_before(x: &Finding, y: &Finding) -> (before: bool)
    requires
        x.locations@.len() > 0,
        y.locations@.len() > 0,
    ensures
        before == finding_lt(*x, *y),
{
    let a = &x.locations[0];
    let b = &y.locations[0];
    proof {
        crate::order::lemma_bytes_lt_asymmetric(text_bytes(a.path@), text_bytes(b.path@));
        crate::order::lemma_bytes_lt_total(text_bytes(a.path@), text_bytes(b.path@));
        lemma_bytes_lt_irreflexive(text_bytes(a.path@));
    }
    match compare_bytes(a.path.as_str().as_bytes(), b.path.as_str().as_bytes()) {
        Comparison::Less => true,
        Comparison::Greater => false,
        Comparison::Equal => {
            if a.start_line != b.start_line {
                a.start_line < b.start_line
            } else if x.lines != y.lines {
                x.lines > y.lines
            } else {
                locations_before(&x.locations, &y.locations)
            }
        },
    }
}

/// No later finding sorts before an earlier one.
pub open spec fn findings_sorted(findings: Seq<Finding>) -> bool {
    forall|a: int, b: int| 0 <= a < b < findings.len() ==> !finding_lt(#[trigger] findings[b], #[trigger] findings[a])
}

/// Indices of `findings` in finding order, equal ones in input order.
fn finding_order(findings: &Vec<Finding>) -> (order: Vec<usize>)
    requires
        forall|i: int| 0 <= i < findings@.len() ==> (#[trigger] findings@[i]).locations@.len() > 0,
    ensures
        is_permutation(order@, findings@.len() as int),
        forall|a: int, b: int|
            0 <= a < b < order@.len() ==> !finding_lt(findings@[#[trigger] order@[b] as int], findings@[#[trigger] order@[a] as int]),
{
    let ghost f = findings@;
    let mut order: Vec<usize> = Vec::new();
    let mut i: usize = 0;
    while i < findings.len()
        invariant
            f == findings@,
            forall|q: int| 0 <= q < f.len() ==> (#[trigger] f[q]).locations@.len() > 0,
            i <= f.len(),
            order@.len() == i,
            order@.no_duplicates(),
            forall|r: int| 0 <= r < order@.len() ==> #[trigger] order@[r] < i,
            forall|a: int, b: int| 0 <= a < b < order@.len() ==> !finding_lt(f[#[trigger] order@[b] as int], f[#[trigger] order@[a] as int]),
        decreases f.len() - i,
    {
        let mut j: usize = 0;
        while j < order.len() && !finding_before(&findings[i], &findings[order[j]])
            invariant
                f == findings@,
                forall|q: int| 0 <= q < f.len() ==> (#[trigger] f[q]).locations@.len() > 0,
                i < f.len(),
                j <= order@.len(),
                forall|r: int| 0 <= r < order@.len() ==> #[trigger] order@[r] < i,
                forall|r: int| 0 <= r < j ==> !finding_lt(f[i as int], f[#[trigger] order@[r] as int]),
            decreases order@.len() - j,
        {
            j = j + 1;
        }
        let ghost before = order@;
        order.insert(j, i);
        proof {
            assert(order@ == before.insert(j as int, i));
            assert forall|r: int| 0 <= r < order@.len() implies #[trigger] order@[r] < i + 1 by {
                if r < j {
                    assert(order@[r] == before[r]);
                } else if r > j {
                    assert(order@[r] == before[r - 1]);
                }
            }
            assert(order@.no_duplicates()) by {
                assert forall|a: int, b: int| 0 <= a < order@.len() && 0 <= b < order@.len() && a != b implies order@[a] != order@[b] by {
                    if a != j && b != j {
                        let a0 = if a < j { a } else { a - 1 };
                        let b0 = if b < j { b } else { b - 1 };
                        assert(order@[a] == before[a0] && order@[b] == before[b0]);
                    } else if a == j {
                        let b0 = if b < j { b } else { b - 1 };
                        assert(order@[b] == before[b0] && before[b0] < i);
                    } else {
                        let a0 = if a < j { a } else { a - 1 };
                        assert(order@[a] == before[a0] && before[a0] < i);
                    }
                }
            }
            assert forall|a: int, b: int| 0 <= a < b < order@.len() implies !finding_lt(f[#[trigger] order@[b] as int], f[#[trigger] order@[a] as int]) by {
                let x = f[i as int];
                if a == j {
                    assert(order@[j + 1] == before[j as int]);
                    let y = f[before[j as int] as int];
                    assert(finding_lt(x, y));
                    let z = f[order@[b] as int];
                    if b > j + 1 {
                        assert(order@[b] == before[b - 1]);
                        assert(!finding_lt(z, y));
                    }
                    lemma_finding_order(z, x, y);
                } else if b == j {
                    assert(order@[a] == before[a]);
                } else {
                    let a0 = if a < j { a } else { a - 1 };
                    let b0 = if b < j { b } else { b - 1 };
                    assert(order@[a] == before[a0] && order@[b] == before[b0]);
                    assert(a0 < b0);
                }
            }
        }
        i = i + 1;
    }
    proof {
        assert forall|p: usize| p < f.len() implies #[trigger] order@.contains(p) by {
            lemma_indices_cover(order@, f.len() as int, p as int);
        }
    }
    order
}

/// `findings` in finding order.
fn sort_findings(findings: Vec<Finding>) -> (sorted: Vec<Finding>)
    requires
        forall|i: int| 0 <= i < findings@.len() ==> (#[trigger] findings@[i]).locations@.len() > 0,
    ensures
        findings_sorted(sorted@),
        exists|order: Seq<usize>|
            is_permutation(order, findings@.len() as int) && sorted@.len() == findings@.len() && forall|r: int|
                0 <= r < sorted@.len() ==> #[trigger] sorted@[r] == findings@[order[r] as int],
{
    let order = finding_order(&findings);
    let ghost original = findings@;
    let mut source = findings;
    let mut sorted: Vec<Finding> = Vec::new();
    let mut r: usize = 0;
    while r < order.len()
        invariant
            is_permutation(order@, original.len() as int),
            forall|a: int, b: int|
                0 <= a < b < order@.len() ==> !finding_lt(original[#[trigger] order@[b] as int], original[#[trigger] order@[a] as int]),
            source@.len() == original.len(),
            r <= order@.len(),
            sorted@.len() == r,
            forall|q: int| 0 <= q < r ==> #[trigger] sorted@[q] == original[order@[q] as int],
            forall|i: int| 0 <= i < original.len() && !order@.take(r as int).contains(i as usize) ==> #[trigger] source@[i] == original[i],
        decreases order@.len() - r,
    {
        let index = order[r];
        let mut slot = Finding {
            code: String::new(),
            lines: 0,
            context: FindingContext::Executable,
            scope: FindingScope::Module,
            occurrences: 0,
            files: 0,
            distribution: FindingDistribution::SameFile,
            locations: Vec::new(),
        };
        proof {
            assert(!order@.take(r as int).contains(index)) by {
                if order@.take(r as int).contains(index) {
                    let w = choose|w: int| 0 <= w < r && order@.take(r as int)[w] == index;
                    assert(order@[w] == order@[r as int]);
                }
            }
        }
        source.set_and_swap(index, &mut slot);
        sorted.push(slot);
        proof {
            assert(order@.take(r + 1)[r as int] == index);
            assert forall|i: int| 0 <= i < original.len() && !order@.take(r + 1).contains(i as usize) implies #[trigger] source@[i] == original[i] by {
                assert(i != index);
                assert(!order@.take(r as int).contains(i as usize)) by {
                    if order@.take(r as int).contains(i as usize) {
                        let w = choose|w: int| 0 <= w < r && order@.take(r as int)[w] == i as usize;
                        assert(order@.take(r + 1)[w] == i as usize);
                    }
                }
            }
        }
        r = r + 1;
    }
    proof {
        assert forall|a: int, b: int| 0 <= a < b < sorted@.len() implies !finding_lt(#[trigger] sorted@[b], #[trigger] sorted@[a]) by {
            assert(sorted@[a] == original[order@[a] as int]);
            assert(sorted@[b] == original[order@[b] as int]);
        }
    }
    sorted
}

// ----------------------------------------------------------------------
// The report.
/// Builds the report of `groups` over `corpus`: its duplication counts and
/// one finding per group, in finding order. Counts and findings come from
/// the same groups, so they cannot disagree.
pub fn build_report(corpus: &Corpus, groups: &Vec<DuplicateGroup>, options: &ReportOptions) -> (result: Result<
    Report,
    ReportError,
>)
    requires
        source_line_total(corpus.files@) <= u64::MAX,
        total_lines(corpus.files@) <= u64::MAX,
        forall|g: int| 0 <= g < groups@.len() ==> (#[trigger] groups@[g]).occurrences@.len() <= u32::MAX,
    ensures
        result is Ok <==> groups_error(corpus.files@, groups@, groups@.len() as int) is None,
        result matches Err(e) ==> groups_error(corpus.files@, groups@, groups@.len() as int) matches Some(m) && e
            == ReportError::Metrics(m),
        result matches Ok(report) ==> {
            &&& report.version == JSON_SCHEMA_VERSION
            &&& report.files == corpus.files@.len()
            &&& report.source_lines == source_line_total(corpus.files@)
            &&& report.analyzed_lines == effective_total(corpus.files@)
            &&& report.duplicate_groups == groups@.len()
            &&& report.duplicate_lines == redundant_total(corpus.files@, groups@, corpus.files@.len() as int)
            &&& findings_sorted(report.findings@)
            &&& exists|order: Seq<usize>|
                is_permutation(order, groups@.len() as int) && report.findings@.len() == groups@.len() && forall|r: int|
                    0 <= r < report.findings@.len() ==> reports_group(
                        #[trigger] report.findings@[r],
                        groups@[order[r] as int],
                        corpus.files@,
                        *options,
                    )
        },
{
    let metrics = match calculate_metrics(corpus, groups) {
        Ok(metrics) => metrics,
        Err(error) => {
            return Err(ReportError::Metrics(error));
        },
    };
    let ghost fs = corpus.files@;
    let mut findings: Vec<Finding> = Vec::new();
    let mut g: usize = 0;
    while g < groups.len()
        invariant
            fs == corpus.files@,
            groups_error(fs, groups@, groups@.len() as int) is None,
            forall|q: int| 0 <= q < groups@.len() ==> (#[trigger] groups@[q]).occurrences@.len() <= u32::MAX,
            g <= groups@.len(),
            findings@.len() == g,
            forall|q: int| 0 <= q < g ==> reports_group(#[trigger] findings@[q], groups@[q], fs, *options),
            forall|q: int| 0 <= q < g ==> (#[trigger] findings@[q]).locations@.len() > 0,
        decreases groups@.len() - g,
    {
        let group = &groups[g];
        proof {
            lemma_groups_valid(fs, groups@, g as int, groups@.len() as int);
            assert forall|k: int| 0 <= k < group.occurrences@.len() implies location_error(fs, #[trigger] group.occurrences@[k]) is None by {
                lemma_valid_occurrence(fs, *group, g as int, k);
            }
            lemma_valid_occurrence(fs, *group, g as int, 0);
        }
        match build_finding(&corpus.files, group, options) {
            Ok(finding) => {
                findings.push(finding);
            },
            Err(error) => {
                return Err(error);
            },
        }
        g = g + 1;
    }
    let ghost unsorted = findings@;
    let sorted = sort_findings(findings);
    proof {
        let order = choose|order: Seq<usize>|
            is_permutation(order, unsorted.len() as int) && sorted@.len() == unsorted.len() && forall|r: int|
                0 <= r < sorted@.len() ==> #[trigger] sorted@[r] == unsorted[order[r] as int];
        assert forall|r: int| 0 <= r < sorted@.len() implies reports_group(
            #[trigger] sorted@[r],
            groups@[order[r] as int],
            fs,
            *options,
        ) by {
            assert(sorted@[r] == unsorted[order[r] as int]);
        }
    }
    Ok(
        Report {
            version: JSON_SCHEMA_VERSION,
            files: metrics.files,
            source_lines: metrics.source_lines,
            analyzed_lines: metrics.analyzed_lines,
            duplicate_groups: metrics.duplicate_groups,
            duplicate_lines: metrics.duplicate_lines,
            findings: sorted,
        },
    )
}

// ----------------------------------------------------------------------
// Human-readable output.
/// `one` for a count of one, else `many`.
pub open spec fn unit(count: int, one: Seq<char>, many: Seq<char>) -> Seq<char> {
    if count == 1 {
        one
    } else {
        many
    }
}

/// `digits` right-aligned in four columns.
pub open spec fn right_aligned(digits: Seq<char>) -> Seq<char> {
    if digits.len() < 4 {
        Seq::new((4 - digits.len()) as nat, |i: int| ' ') + digits
    } else {
        digits
    }
}

/// Numbered lines `lines[..n]`, the first numbered `first`.
pub open spec fn numbered_lines(lines: Seq<Seq<char>>, first: int, n: int) -> Seq<char>
    decreases n,
{
    if n <= 0 {
        seq![]
    } else {
        numbered_lines(lines, first, n - 1) + "    "@ + right_aligned(decimal((first + n - 1) as nat)) + " | "@
            + lines[n - 1] + "\n"@
    }
}

/// The lines describing one location.
pub open spec fn location_text(l: Location) -> Seq<char> {
    "  "@ + l.path@ + ":"@ + decimal(l.start_line as nat) + "-"@ + decimal(l.end_line as nat) + "\n"@
        + match l.source {
        Some(text) => numbered_lines(text_lines(text@), l.start_line as int, text_lines(text@).len() as int),
        None => seq![],
    }
}

/// The lines describing the first `n` locations.
pub open spec fn locations_text(locations: Seq<Location>, n: int) -> Seq<char>
    decreases n,
{
    if n <= 0 {
        seq![]
    } else {
        locations_text(locations, n - 1) + location_text(locations[n - 1])
    }
}

pub open spec fn context_name(c: FindingContext) -> Seq<char> {
    match c {
        FindingContext::Declarative => "declarative"@,
        FindingContext::Executable => "executable"@,
        FindingContext::Mixed => "mixed"@,
    }
}

pub open spec fn scope_name(scope: FindingScope) -> Seq<char> {
    match scope {
        FindingScope::Module => "module"@,
        FindingScope::Class => "class"@,
        FindingScope::Function => "function"@,
        FindingScope::Mixed => "mixed"@,
    }
}

pub open spec fn distribution_name(d: FindingDistribution) -> Seq<char> {
    match d {
        FindingDistribution::SameFile => "same-file"@,
        FindingDistribution::CrossFile => "cross-file"@,
        FindingDistribution::Mixed => "mixed"@,
    }
}

/// The first line of a finding: code, length and unit.
pub open spec fn finding_title(f: Finding) -> Seq<char> {
    f.code@ + " "@ + decimal(f.lines as nat) + " duplicated "@ + unit(f.lines as int, "line"@, "lines"@) + "\n"@
}

/// The context and scope lines of a finding.
pub open spec fn finding_kind_lines(f: Finding) -> Seq<char> {
    "Context: "@ + context_name(f.context) + "\n"@ + "Scope: "@ + scope_name(f.scope) + "\n"@
}

/// The occurrence line of a finding.
pub open spec fn finding_occurrence_line(f: Finding) -> Seq<char> {
    "Occurrences: "@ + decimal(f.occurrences as nat) + " across "@ + decimal(f.files as nat) + " "@ + unit(
        f.files as int,
        "file"@,
        "files"@,
    ) + " ("@ + distribution_name(f.distribution) + ")\n"@
}

/// The heading lines of one finding, up to the blank line before its locations.
pub open spec fn finding_header(f: Finding) -> Seq<char> {
    finding_title(f) + finding_kind_lines(f) + finding_occurrence_line(f) + "\n"@
}

/// The diagnostic block of one finding.
pub open spec fn finding_text(f: Finding) -> Seq<char> {
    finding_header(f) + locations_text(f.locations@, f.locations@.len() as int) + "\n"@
}

/// The blocks of the first `n` findings.
pub open spec fn findings_text(findings: Seq<Finding>, n: int) -> Seq<char>
    decreases n,
{
    if n <= 0 {
        seq![]
    } else {
        findings_text(findings, n - 1) + finding_text(findings[n - 1])
    }
}

/// The developer-facing diagnostic output of `report`, where `percent` is
/// the duplication percentage already formatted with two decimals.
pub open spec fn human_text(report: Report, percent: Seq<char>) -> Seq<char> {
    findings_text(report.findings@, report.findings@.len() as int) + if report.findings@.len() == 0 {
        "No duplicate code found.\n"@
    } else {
        "Found "@ + decimal(report.duplicate_groups as nat) + " duplicate "@ + unit(
            report.duplicate_groups as int,
            "group"@,
            "groups"@,
        ) + ".\n"@
    } + decimal(report.duplicate_lines as nat) + " duplicate "@ + unit(
        report.duplicate_lines as int,
        "line"@,
        "lines"@,
    ) + " ("@ + percent + "%).\n"@
}

/// Numbers of the source lines of a location stay within `u64`.
pub open spec fn source_numbers_fit(report: Report) -> bool {
    forall|f: int, l: int|
        0 <= f < report.findings@.len() && 0 <= l < report.findings@[f].locations@.len() ==> match (
        #[trigger] report.findings@[f].locations@[l]).source {
            Some(text) => report.findings@[f].locations@[l].start_line + text_lines(text@).len() <= u64::MAX,
            None => true,
        }
}

pub(crate) fn push_right_aligned(out: &mut String, n: u64)
    ensures
        final(out)@ == old(out)@ + right_aligned(decimal(n as nat)),
{
    let mut digits = String::new();
    push_decimal(&mut digits, n);
    proof {
        assert(digits@ =~= Seq::<char>::empty() + decimal(n as nat));
    }
    let width = digits.as_str().unicode_len();
    let ghost before = out@;
    if width < 4 {
        let mut pad: usize = width;
        while pad < 4
            invariant
                width == decimal(n as nat).len(),
                width <= pad <= 4,
                out@ == before + Seq::new((pad - width) as nat, |i: int| ' '),
            decreases 4 - pad,
        {
            push_char(out, ' ');
            proof {
                assert(Seq::new((pad + 1 - width) as nat, |i: int| ' ') =~= Seq::new(
                    (pad - width) as nat,
                    |i: int| ' ',
                ).push(' '));
            }
            pad = pad + 1;
        }
    }
    out.append(digits.as_str());
}

fn push_location(out: &mut String, l: &Location)
    requires
        match l.source {
            Some(text) => l.start_line + text_lines(text@).len() <= u64::MAX,
            None => true,
        },
    ensures
        final(out)@ == old(out)@ + location_text(*l),
{
    let ghost before = out@;
    out.append("  ");
    out.append(l.path.as_str());
    out.append(":");
    push_decimal(out, l.start_line);
    out.append("-");
    push_decimal(out, l.end_line);
    out.append("\n");
    let ghost head = out@;
    match &l.source {
        Some(text) => {
            let chars = chars_of(text.as_str());
            let lines = split_source_lines(&chars);
            let ghost all = text_lines(text@);
            let mut k: usize = 0;
            while k < lines.len()
                invariant
                    lines@.len() == all.len(),
                    forall|i: int| 0 <= i < lines@.len() ==> (#[trigger] lines@[i])@ == all[i],
                    l.start_line + all.len() <= u64::MAX,
                    k <= lines@.len(),
                    out@ == head + numbered_lines(all, l.start_line as int, k as int),
                decreases lines@.len() - k,
            {
                out.append("    ");
                push_right_aligned(out, l.start_line + k as u64);
                out.append(" | ");
                let line = &lines[k];
                let mut i: usize = 0;
                let ghost mid = out@;
                while i < line.len()
                    invariant
                        i <= line@.len(),
                        out@ == mid + line@.take(i as int),
                    decreases line@.len() - i,
                {
                    push_char(out, line[i]);
                    proof {
                        assert(line@.take(i + 1) =~= line@.take(i as int).push(line@[i as int]));
                    }
                    i = i + 1;
                }
                out.append("\n");
                proof {
                    assert(line@.take(i as int) =~= line@);
                }
                k = k + 1;
            }
        },
        None => {},
    }
}

fn push_finding_title(out: &mut String, f: &Finding)
    ensures
        final(out)@ == old(out)@ + finding_title(*f),
{
    out.append(f.code.as_str());
    out.append(" ");
    push_decimal(out, f.lines as u64);
    out.append(" duplicated ");
    if f.lines == 1 {
        out.append("line");
    } else {
        out.append("lines");
    }
    out.append("\n");
}

fn push_finding_kind_lines(out: &mut String, f: &Finding)
    ensures
        final(out)@ == old(out)@ + finding_kind_lines(*f),
{
    out.append("Context: ");
    out.append(f.context.as_str());
    out.append("\n");
    out.append("Scope: ");
    out.append(f.scope.as_str());
    out.append("\n");
}

fn push_finding_occurrence_line(out: &mut String, f: &Finding)
    ensures
        final(out)@ == old(out)@ + finding_occurrence_line(*f),
{
    out.append("Occurrences: ");
    push_decimal(out, f.occurrences as u64);
    out.append(" across ");
    push_decimal(out, f.files as u64);
    out.append(" ");
    if f.files == 1 {
        out.append("file");
    } else {
        out.append("files");
    }
    out.append(" (");
    out.append(f.distribution.as_str());
    out.append(")\n");
}

fn push_finding_header(out: &mut String, f: &Finding)
    ensures
        final(out)@ == old(out)@ + finding_header(*f),
{
    let ghost s0 = out@;
    push_finding_title(out, f);
    let ghost s1 = out@;
    push_finding_kind_lines(out, f);
    let ghost s2 = out@;
    push_finding_occurrence_line(out, f);
    out.append("\n");
    proof {
        assert(out@ =~= s0 + finding_header(*f));
    }
}

fn push_finding(out: &mut String, f: &Finding)
    requires
        forall|l: int| 0 <= l < f.locations@.len() ==> match (#[trigger] f.locations@[l]).source {
            Some(text) => f.locations@[l].start_line + text_lines(text@).len() <= u64::MAX,
            None => true,
        },
    ensures
        final(out)@ == old(out)@ + finding_text(*f),
{
    let ghost before = out@;
    push_finding_header(out, f);
    let ghost head = out@;
    let mut k: usize = 0;
    while k < f.locations.len()
        invariant
            forall|l: int| 0 <= l < f.locations@.len() ==> match (#[trigger] f.locations@[l]).source {
                Some(text) => f.locations@[l].start_line + text_lines(text@).len() <= u64::MAX,
                None => true,
            },
            k <= f.locations@.len(),
            head == before + finding_header(*f),
            out@ == head + locations_text(f.locations@, k as int),
        decreases f.locations@.len() - k,
    {
        push_location(out, &f.locations[k]);
        k = k + 1;
    }
    out.append("\n");
}

/// Renders the developer-facing diagnostic output of `report`; `percent`
/// is the duplication percentage formatted with two decimals.
pub fn render_human(report: &Report, percent: &str) -> (output: String)
    requires
        source_numbers_fit(*report),
    ensures
        output@ == human_text(*report, percent@),
{
    let mut output = String::new();
    let mut k: usize = 0;
    proof {
        assert(output@ =~= findings_text(report.findings@, 0));
    }
    while k < report.findings.len()
        invariant
            source_numbers_fit(*report),
            k <= report.findings@.len(),
            output@ == findings_text(report.findings@, k as int),
        decreases report.findings@.len() - k,
    {
        proof {
            assert forall|l: int| 0 <= l < report.findings@[k as int].locations@.len() implies match (
            #[trigger] report.findings@[k as int].locations@[l]).source {
                Some(text) => report.findings@[k as int].locations@[l].start_line + text_lines(text@).len() <= u64::MAX,
                None => true,
            } by {
                let f = k as int;
                assert(report.findings@[f].locations@[l] == report.findings@[f].locations@[l]);
            }
        }
        push_finding(&mut output, &report.findings[k]);
        k = k + 1;
    }
    if report.findings.len() == 0 {
        output.append("No duplicate code found.\n");
    } else {
        output.append("Found ");
        push_decimal(&mut output, report.duplicate_groups);
        output.append(" duplicate ");
        if report.duplicate_groups == 1 {
            output.append("group");
        } else {
            output.append("groups");
        }
        output.append(".\n");
    }
    push_decimal(&mut output, report.duplicate_lines);
    output.append(" duplicate ");
    if report.duplicate_lines == 1 {
        output.append("line");
    } else {
        output.append("lines");
    }
    output.append(" (");
    output.append(percent);
    output.append("%).\n");
    output
}

// ----------------------------------------------------------------------
// Laws.
proof fn lemma_file_runs(s: Seq<Occurrence>)
    ensures
        file_runs(s) <= s.len(),
        s.len() > 0 ==> file_runs(s) >= 1,
        s.len() > 0 ==> (file_runs(s) == s.len() <==> !repeats_file(s)),
    decreases s.len(),
{
    if s.len() > 0 {
        let init = s.drop_last();
        lemma_file_runs(init);
        let joined = init.len() > 0 && init.last().file == s.last().file;
        if joined {
            assert(s[s.len() - 1].file == s[s.len() - 2].file);
            assert(repeats_file(s));
        } else {
            if repeats_file(s) {
                let i = choose|i: int| 0 < i < s.len() && #[trigger] s[i].file == s[i - 1].file;
                assert(i < s.len() - 1);
                assert(init[i].file == init[i - 1].file);
                assert(repeats_file(init));
            }
            if repeats_file(init) {
                let i = choose|i: int| 0 < i < init.len() && #[trigger] init[i].file == init[i - 1].file;
                assert(s[i].file == s[i - 1].file);
            }
        }
    }
}

/// The distribution of a finding says how its copies spread: same-file
/// when they lie in one file, cross-file when each of several files holds
/// one copy, mixed when several files are involved and one of them holds
/// several copies.
pub proof fn law_distribution_meaning(
    finding: Finding,
    group: DuplicateGroup,
    files: Seq<PreparedFile>,
    options: ReportOptions,
)
    requires
        reports_group(finding, group, files, options),
        group.occurrences@.len() > 0,
    ensures
        finding.distribution == FindingDistribution::SameFile <==> finding.files == 1,
        finding.distribution == FindingDistribution::CrossFile <==> (finding.files > 1 && finding.files
            == finding.occurrences),
        finding.distribution == FindingDistribution::Mixed <==> (finding.files > 1 && finding.files
            < finding.occurrences),
{
    let sorted = choose|sorted: Seq<Occurrence>|
        {
            &&& sorts_occurrences(sorted, group.occurrences@)
            &&& finding.code@ == DUPLICATE_CODE@
            &&& finding.lines == group.effective_lines
            &&& finding.occurrences == sorted.len()
            &&& finding.files == file_runs(sorted)
            &&& finding.distribution == distribution_of(sorted)
            &&& finding.context == copies_context(files, sorted)
            &&& finding.scope == copies_scope(files, sorted)
            &&& sorted_locations(
                finding.locations@,
                Seq::new(sorted.len(), |i: int| expected_location(files, sorted[i], options)),
            )
        };
    lemma_file_runs(sorted);
}

} // verus!
