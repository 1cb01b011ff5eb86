use vstd::prelude::*;
use vstd::string::{StrSliceExecFns, StringExecFns};

use crate::chars::same_text;
use crate::cli::{selected_format, Cli, OutputFormat};
use crate::error::{ErrorKind, OperationalError};
use crate::paths::{
    components, is_dot, is_dot_dot, is_root_marker, join_slash, normal_component, path_components, project_relative_path,
    relative_result, valid_serialized,
};

verus! {

/// What a path names on disk.
#[derive(Debug, Clone, Copy, PartialEq, Eq, Structural)]
pub enum PathKind {
    File,
    Directory,
}

pub open spec fn kind_name(kind: PathKind) -> Seq<char> {
    match kind {
        PathKind::File => "file"@,
        PathKind::Directory => "directory"@,
    }
}

impl PathKind {
    pub fn as_str(self) -> (name: &'static str)
        ensures
            name@ == kind_name(self),
    {
        match self {
            PathKind::File => "file",
            PathKind::Directory => "directory",
        }
    }

    pub fn is_dir(self) -> (dir: bool)
        ensures
            dir == (self == PathKind::Directory),
    {
        match self {
            PathKind::File => false,
            PathKind::Directory => true,
        }
    }
}

/// Whether discovery would scan a path.
#[derive(Debug, Clone, Copy, PartialEq, Eq, Structural)]
pub enum PathDecision {
    Include,
    Exclude,
}

pub open spec fn decision_name(decision: PathDecision) -> Seq<char> {
    match decision {
        PathDecision::Include => "include"@,
        PathDecision::Exclude => "exclude"@,
    }
}

impl PathDecision {
    pub fn as_str(self) -> (name: &'static str)
        ensures
            name@ == decision_name(self),
    {
        match self {
            PathDecision::Include => "include",
            PathDecision::Exclude => "exclude",
        }
    }
}

/// Why discovery includes or excludes a path.
#[derive(Debug, Clone, Copy, PartialEq, Eq, Structural)]
pub enum PathReason {
    ExplicitFile,
    ExplicitDirectory,
    Discovered,
    OutsideScanRoots,
    AridExclude,
    IgnoreFile,
    Hidden,
    UnsupportedSourceType,
    SymlinkDirectory,
    SymlinkTraversal,
}

pub open spec fn reason_name(reason: PathReason) -> Seq<char> {
    match reason {
        PathReason::ExplicitFile => "explicit-file"@,
        PathReason::ExplicitDirectory => "explicit-directory"@,
        PathReason::Discovered => "discovered"@,
        PathReason::OutsideScanRoots => "outside-scan-roots"@,
        PathReason::AridExclude => "arid-exclude"@,
        PathReason::IgnoreFile => "ignore-file"@,
        PathReason::Hidden => "hidden"@,
        PathReason::UnsupportedSourceType => "unsupported-source-type"@,
        PathReason::SymlinkDirectory => "symlink-directory"@,
        PathReason::SymlinkTraversal => "symlink-traversal"@,
    }
}

/// Rank of a reason in an explanation: lower ranks come first.
pub open spec fn reason_priority(reason: PathReason) -> nat {
    match reason {
        PathReason::OutsideScanRoots => 0,
        PathReason::SymlinkDirectory | PathReason::SymlinkTraversal => 1,
        PathReason::AridExclude => 2,
        PathReason::Hidden => 3,
        PathReason::IgnoreFile => 4,
        PathReason::UnsupportedSourceType => 5,
        PathReason::ExplicitFile | PathReason::ExplicitDirectory | PathReason::Discovered => 6,
    }
}

/// Number of distinct reason ranks.
pub const PRIORITY_LEVELS: u8 = 7;

impl PathReason {
    pub fn as_str(self) -> (name: &'static str)
        ensures
            name@ == reason_name(self),
    {
        match self {
            PathReason::ExplicitFile => "explicit-file",
            PathReason::ExplicitDirectory => "explicit-directory",
            PathReason::Discovered => "discovered",
            PathReason::OutsideScanRoots => "outside-scan-roots",
            PathReason::AridExclude => "arid-exclude",
            PathReason::IgnoreFile => "ignore-file",
            PathReason::Hidden => "hidden",
            PathReason::UnsupportedSourceType => "unsupported-source-type",
            PathReason::SymlinkDirectory => "symlink-directory",
            PathReason::SymlinkTraversal => "symlink-traversal",
        }
    }

    pub fn priority(self) -> (rank: u8)
        ensures
            rank == reason_priority(self),
            rank < PRIORITY_LEVELS,
    {
        match self {
            PathReason::OutsideScanRoots => 0,
            PathReason::SymlinkDirectory | PathReason::SymlinkTraversal => 1,
            PathReason::AridExclude => 2,
            PathReason::Hidden => 3,
            PathReason::IgnoreFile => 4,
            PathReason::UnsupportedSourceType => 5,
            PathReason::ExplicitFile | PathReason::ExplicitDirectory | PathReason::Discovered => 6,
        }
    }
}

/// How discovery treats one path, and why.
#[derive(Debug, Clone, PartialEq, Eq)]
pub struct PathExplanation {
    pub path: String,
    pub kind: PathKind,
    pub symlink: bool,
    pub explicit: bool,
    pub decision: PathDecision,
    pub reasons: Vec<PathReason>,
}

/// A path as found on disk: its absolute form, what it names (if a file
/// or directory) and whether it is a symbolic link.
#[derive(Debug, Clone, PartialEq, Eq)]
pub struct InspectedPath {
    pub path: String,
    pub kind: Option<PathKind>,
    pub symlink: bool,
}

// ----------------------------------------------------------------------
// Ordering reasons.
/// The reasons of rank `p` in `reasons`, in their order.
pub open spec fn with_priority(reasons: Seq<PathReason>, p: nat) -> Seq<PathReason>
    decreases reasons.len(),
{
    if reasons.len() == 0 {
        seq![]
    } else {
        with_priority(reasons.drop_last(), p) + if reason_priority(reasons.last()) == p {
            seq![reasons.last()]
        } else {
            seq![]
        }
    }
}

/// The reasons of rank below `n`, by rank, keeping the order within a rank.
pub open spec fn below_priority(reasons: Seq<PathReason>, n: nat) -> Seq<PathReason>
    decreases n,
{
    if n == 0 {
        seq![]
    } else {
        below_priority(reasons, (n - 1) as nat) + with_priority(reasons, (n - 1) as nat)
    }
}

/// `reasons` stably sorted by rank.
pub open spec fn by_priority(reasons: Seq<PathReason>) -> Seq<PathReason> {
    below_priority(reasons, PRIORITY_LEVELS as nat)
}

/// No reason outranks a later one.
pub open spec fn priority_sorted(reasons: Seq<PathReason>) -> bool {
    forall|i: int, j: int|
        0 <= i < j < reasons.len() ==> reason_priority(#[trigger] reasons[i]) <= reason_priority(
            #[trigger] reasons[j],
        )
}

proof fn lemma_with_priority_rank(reasons: Seq<PathReason>, p: nat)
    ensures
        forall|i: int|
            0 <= i < with_priority(reasons, p).len() ==> reason_priority(#[trigger] with_priority(reasons, p)[i])
                == p,
    decreases reasons.len(),
{
    if reasons.len() > 0 {
        lemma_with_priority_rank(reasons.drop_last(), p);
        let a = with_priority(reasons.drop_last(), p);
        let b: Seq<PathReason> = if reason_priority(reasons.last()) == p {
            seq![reasons.last()]
        } else {
            seq![]
        };
        assert forall|i: int| 0 <= i < (a + b).len() implies reason_priority(#[trigger] (a + b)[i]) == p by {
            if i < a.len() {
                assert((a + b)[i] == a[i]);
            } else {
                assert((a + b)[i] == b[i - a.len()]);
            }
        }
    }
}

proof fn lemma_below_priority_sorted(reasons: Seq<PathReason>, n: nat)
    ensures
        priority_sorted(below_priority(reasons, n)),
        forall|i: int|
            0 <= i < below_priority(reasons, n).len() ==> reason_priority(
                #[trigger] below_priority(reasons, n)[i],
            ) < n,
    decreases n,
{
    if n > 0 {
        let m = (n - 1) as nat;
        lemma_below_priority_sorted(reasons, m);
        lemma_with_priority_rank(reasons, m);
        let a = below_priority(reasons, m);
        let b = with_priority(reasons, m);
        assert forall|i: int| 0 <= i < (a + b).len() implies reason_priority(#[trigger] (a + b)[i]) < n by {
            if i < a.len() {
                assert((a + b)[i] == a[i]);
            } else {
                assert((a + b)[i] == b[i - a.len()]);
            }
        }
        assert forall|i: int, j: int| 0 <= i < j < (a + b).len() implies reason_priority(
            #[trigger] (a + b)[i],
        ) <= reason_priority(#[trigger] (a + b)[j]) by {
            if j < a.len() {
                assert((a + b)[i] == a[i]);
                assert((a + b)[j] == a[j]);
            } else if i < a.len() {
                assert((a + b)[i] == a[i]);
                assert((a + b)[j] == b[j - a.len()]);
            } else {
                assert((a + b)[i] == b[i - a.len()]);
                assert((a + b)[j] == b[j - a.len()]);
            }
        }
    }
}

/// Sorts `reasons` by rank, keeping the order of reasons of equal rank.
pub fn sort_by_priority(reasons: &Vec<PathReason>) -> (sorted: Vec<PathReason>)
    ensures
        sorted@ == by_priority(reasons@),
        priority_sorted(sorted@),
{
    let mut sorted: Vec<PathReason> = Vec::new();
    let mut p: u8 = 0;
    while p < PRIORITY_LEVELS
        invariant
            p <= PRIORITY_LEVELS,
            sorted@ == below_priority(reasons@, p as nat),
        decreases PRIORITY_LEVELS - p,
    {
        let ghost base = sorted@;
        let mut i: usize = 0;
        while i < reasons.len()
            invariant
                i <= reasons@.len(),
                sorted@ == base + with_priority(reasons@.take(i as int), p as nat),
            decreases reasons@.len() - i,
        {
            proof {
                assert(reasons@.take(i + 1).drop_last() =~= reasons@.take(i as int));
                assert(reasons@.take(i + 1).last() == reasons@[i as int]);
            }
            let reason = reasons[i];
            if reason.priority() == p {
                sorted.push(reason);
                proof {
                    assert(sorted@ =~= base + with_priority(reasons@.take(i + 1), p as nat));
                }
            } else {
                proof {
                    assert(with_priority(reasons@.take(i + 1), p as nat) =~= with_priority(
                        reasons@.take(i as int),
                        p as nat,
                    ));
                }
            }
            i = i + 1;
        }
        proof {
            assert(reasons@.take(i as int) =~= reasons@);
        }
        p = p + 1;
    }
    proof {
        lemma_below_priority_sorted(reasons@, PRIORITY_LEVELS as nat);
    }
    sorted
}

/// `reasons` with each run of equal neighbours reduced to one.
pub open spec fn dedup_adjacent(reasons: Seq<PathReason>) -> Seq<PathReason>
    decreases reasons.len(),
{
    if reasons.len() == 0 {
        seq![]
    } else if reasons.len() >= 2 && reasons[reasons.len() - 2] == reasons.last() {
        dedup_adjacent(reasons.drop_last())
    } else {
        dedup_adjacent(reasons.drop_last()).push(reasons.last())
    }
}

/// Removes consecutive repeated reasons.
pub fn dedup_reasons(reasons: &Vec<PathReason>) -> (deduped: Vec<PathReason>)
    ensures
        deduped@ == dedup_adjacent(reasons@),
{
    let mut deduped: Vec<PathReason> = Vec::new();
    let mut i: usize = 0;
    while i < reasons.len()
        invariant
            i <= reasons@.len(),
            deduped@ == dedup_adjacent(reasons@.take(i as int)),
        decreases reasons@.len() - i,
    {
        proof {
            assert(reasons@.take(i + 1).drop_last() =~= reasons@.take(i as int));
        }
        if i == 0 || reasons[i] != reasons[i - 1] {
            deduped.push(reasons[i]);
        }
        i = i + 1;
    }
    proof {
        assert(reasons@.take(i as int) =~= reasons@);
    }
    deduped
}

// ----------------------------------------------------------------------
// Facts about paths.
/// The last component of `p` when it names an entry, as `Path::file_name`
/// gives it.
pub open spec fn file_name(p: Seq<char>) -> Option<Seq<char>> {
    let c = path_components(p);
    if c.len() > 0 && normal_component(c.last()) {
        Some(c.last())
    } else {
        None
    }
}

/// Index of the last `.` in `s`, or -1.
pub open spec fn last_dot(s: Seq<char>) -> int
    decreases s.len(),
{
    if s.len() == 0 {
        -1
    } else if s.last() == '.' {
        s.len() - 1
    } else {
        last_dot(s.drop_last())
    }
}

/// The extension of a file name, as `Path::extension` gives it: what
/// follows the last `.`, unless that `.` begins the name.
pub open spec fn extension(name: Seq<char>) -> Option<Seq<char>> {
    let k = last_dot(name);
    if k > 0 {
        Some(name.skip(k + 1))
    } else {
        None
    }
}

/// A path whose extension is `py` or `pyi`.
pub open spec fn python_path(p: Seq<char>) -> bool {
    match file_name(p) {
        Some(name) => extension(name) == Some(seq!['p', 'y']) || extension(name) == Some(seq!['p', 'y', 'i']),
        None => false,
    }
}

proof fn lemma_last_dot_bounds(s: Seq<char>)
    ensures
        -1 <= last_dot(s) < s.len(),
        last_dot(s) >= 0 ==> s[last_dot(s)] == '.',
        forall|t: int| last_dot(s) < t < s.len() ==> s[t] != '.',
    decreases s.len(),
{
    if s.len() > 0 {
        lemma_last_dot_bounds(s.drop_last());
        assert forall|t: int| last_dot(s) < t < s.len() implies s[t] != '.' by {
            if t < s.len() - 1 {
                assert(s[t] == s.drop_last()[t]);
            }
        }
    }
}

/// True when `path` names a Python source or stub file.
pub fn is_python_file(path: &str) -> (python: bool)
    ensures
        python == python_path(path@),
{
    let parts = components(path);
    let n = parts.len();
    if n == 0 {
        return false;
    }
    let name = parts[n - 1].as_str();
    proof {
        assert(name@ == path_components(path@).last());
    }
    if is_root_marker(name) || is_dot(name) || is_dot_dot(name) {
        return false;
    }
    let len = name.unicode_len();
    let mut k: usize = len;
    while k > 0 && name.get_char(k - 1) != '.'
        invariant
            k <= len,
            len == name@.len(),
            forall|t: int| k <= t < len ==> name@[t] != '.',
        decreases k,
    {
        k = k - 1;
    }
    proof {
        lemma_last_dot_bounds(name@);
        if k > 0 {
            assert(name@[k - 1] == '.');
            if last_dot(name@) != k - 1 {
                assert(last_dot(name@) < k - 1 || last_dot(name@) > k - 1);
            }
            assert(last_dot(name@) == k - 1);
        } else {
            assert(last_dot(name@) == -1);
        }
    }
    if k < 2 {
        return false;
    }
    let rest = len - k;
    let ext = name.substring_char(k, len);
    proof {
        assert(ext@ =~= name@.skip(k as int));
    }
    if rest == 2 {
        let a = ext.get_char(0);
        let b = ext.get_char(1);
        proof {
            if a == 'p' && b == 'y' {
                assert(ext@ =~= seq!['p', 'y']);
            }
        }
        a == 'p' && b == 'y'
    } else if rest == 3 {
        let a = ext.get_char(0);
        let b = ext.get_char(1);
        let c = ext.get_char(2);
        proof {
            if a == 'p' && b == 'y' && c == 'i' {
                assert(ext@ =~= seq!['p', 'y', 'i']);
            }
        }
        a == 'p' && b == 'y' && c == 'i'
    } else {
        false
    }
}

/// True when the components of `a` and `b` agree, as `Path` equality
/// compares them.
pub fn same_location(a: &str, b: &str) -> (same: bool)
    ensures
        same == (path_components(a@) == path_components(b@)),
{
    let left = components(a);
    let right = components(b);
    if left.len() != right.len() {
        return false;
    }
    let mut i: usize = 0;
    while i < left.len()
        invariant
            left@.len() == right@.len(),
            left@.len() == path_components(a@).len(),
            right@.len() == path_components(b@).len(),
            forall|k: int| 0 <= k < left@.len() ==> #[trigger] left@[k]@ == path_components(a@)[k],
            forall|k: int| 0 <= k < right@.len() ==> #[trigger] right@[k]@ == path_components(b@)[k],
            i <= left@.len(),
            forall|k: int| 0 <= k < i ==> path_components(a@)[k] == path_components(b@)[k],
        decreases left@.len() - i,
    {
        if !same_text(left[i].as_str(), right[i].as_str()) {
            proof {
                assert(path_components(a@)[i as int] != path_components(b@)[i as int]);
            }
            return false;
        }
        i = i + 1;
    }
    proof {
        assert(path_components(a@) =~= path_components(b@));
    }
    true
}

/// True when the components of `root` begin those of `target`, as
/// `Path::starts_with` tests.
pub fn starts_with_components(target: &str, root: &str) -> (within: bool)
    ensures
        within == path_components(root@).is_prefix_of(path_components(target@)),
{
    let outer = components(target);
    let inner = components(root);
    if inner.len() > outer.len() {
        return false;
    }
    let mut i: usize = 0;
    while i < inner.len()
        invariant
            inner@.len() <= outer@.len(),
            outer@.len() == path_components(target@).len(),
            inner@.len() == path_components(root@).len(),
            forall|k: int| 0 <= k < outer@.len() ==> #[trigger] outer@[k]@ == path_components(target@)[k],
            forall|k: int| 0 <= k < inner@.len() ==> #[trigger] inner@[k]@ == path_components(root@)[k],
            i <= inner@.len(),
            forall|k: int| 0 <= k < i ==> path_components(root@)[k] == path_components(target@)[k],
        decreases inner@.len() - i,
    {
        if !same_text(inner[i].as_str(), outer[i].as_str()) {
            proof {
                assert(path_components(root@)[i as int] != path_components(target@)[i as int]);
            }
            return false;
        }
        i = i + 1;
    }
    true
}

/// The project-relative form of `path` when it has one, else `path`.
pub open spec fn shown_path(path: Seq<char>, project_root: Seq<char>) -> Seq<char> {
    match relative_result(path, project_root) {
        Some(rel) => if (forall|k: int| 0 <= k < rel.len() ==> normal_component(#[trigger] rel[k])) && valid_serialized(
            join_slash(rel),
        ) {
            join_slash(rel)
        } else {
            path
        },
        None => path,
    }
}

/// The path an explanation shows: project-relative where possible.
pub fn explanation_path(path: &str, project_root: &str) -> (shown: String)
    ensures
        shown@ == shown_path(path@, project_root@),
{
    match project_relative_path(path, project_root) {
        Ok(relative) => relative,
        Err(_) => path.to_owned(),
    }
}

// ----------------------------------------------------------------------
// Decisions.
/// The message of a failure to evaluate Arid's excludes.
pub open spec fn exclude_error_message(message: Seq<char>) -> Seq<char> {
    "failed to evaluate Arid excludes: "@ + message
}

fn exclude_error(message: String) -> (error: OperationalError)
    ensures
        error.kind == ErrorKind::Discovery,
        error.message@ == exclude_error_message(message@),
        error.path is None,
{
    OperationalError::new(ErrorKind::Discovery, String::from_str("failed to evaluate Arid excludes: ").concat(message.as_str()))
}

/// Reasons to leave out a scan root that is a file.
pub open spec fn file_reasons(excluded: bool, python: bool) -> Seq<PathReason> {
    (if excluded {
        seq![PathReason::AridExclude]
    } else {
        seq![]
    }) + (if !python {
        seq![PathReason::UnsupportedSourceType]
    } else {
        seq![]
    })
}

/// The explanation of a path, field by field.
pub open spec fn explains(
    e: PathExplanation,
    path: Seq<char>,
    kind: PathKind,
    symlink: bool,
    explicit: bool,
    decision: PathDecision,
    reasons: Seq<PathReason>,
) -> bool {
    &&& e.path@ == path
    &&& e.kind == kind
    &&& e.symlink == symlink
    &&& e.explicit == explicit
    &&& e.decision == decision
    &&& e.reasons@ == reasons
}

fn single(reason: PathReason) -> (reasons: Vec<PathReason>)
    ensures
        reasons@ == seq![reason],
{
    let mut reasons: Vec<PathReason> = Vec::new();
    reasons.push(reason);
    proof {
        assert(reasons@ =~= seq![reason]);
    }
    reasons
}

fn explanation(
    path: String,
    kind: PathKind,
    symlink: bool,
    explicit: bool,
    decision: PathDecision,
    reasons: Vec<PathReason>,
) -> (e: PathExplanation)
    ensures
        explains(e, path@, kind, symlink, explicit, decision, reasons@),
{
    PathExplanation { path, kind, symlink, explicit, decision, reasons }
}

/// Explains a path that is itself a scan root. A directory root is
/// included unless it is a symbolic link; a file root is included unless
/// Arid's excludes match it or it is not Python source. `excluded` is the
/// outcome of matching the excludes against the root, which only a file
/// root consults.
pub fn explain_root(
    excluded: Result<bool, String>,
    python: bool,
    explicit: bool,
    target_symlink: bool,
    kind: PathKind,
    display_path: String,
) -> (result: Result<PathExplanation, OperationalError>)
    ensures
        kind == PathKind::Directory ==> (result matches Ok(e) && if target_symlink {
            explains(e, display_path@, kind, true, explicit, PathDecision::Exclude, seq![PathReason::SymlinkDirectory])
        } else {
            explains(
                e,
                display_path@,
                kind,
                false,
                explicit,
                PathDecision::Include,
                seq![if explicit { PathReason::ExplicitDirectory } else { PathReason::Discovered }],
            )
        }),
        kind == PathKind::File ==> match excluded {
            Err(m) => result matches Err(e) && e.kind == ErrorKind::Discovery && e.message@ == exclude_error_message(m@)
                && e.path is None,
            Ok(x) => result matches Ok(e) && if file_reasons(x, python).len() == 0 {
                explains(
                    e,
                    display_path@,
                    kind,
                    target_symlink,
                    explicit,
                    PathDecision::Include,
                    seq![if explicit { PathReason::ExplicitFile } else { PathReason::Discovered }],
                )
            } else {
                explains(
                    e,
                    display_path@,
                    kind,
                    target_symlink,
                    explicit,
                    PathDecision::Exclude,
                    by_priority(file_reasons(x, python)),
                )
            },
        },
{
    match kind {
        PathKind::Directory => {
            if target_symlink {
                return Ok(
                    explanation(
                        display_path,
                        kind,
                        true,
                        explicit,
                        PathDecision::Exclude,
                        single(PathReason::SymlinkDirectory),
                    ),
                );
            }
            let reason = if explicit {
                PathReason::ExplicitDirectory
            } else {
                PathReason::Discovered
            };
            Ok(explanation(display_path, kind, false, explicit, PathDecision::Include, single(reason)))
        },
        PathKind::File => {
            let excluded = match excluded {
                Ok(x) => x,
                Err(message) => {
                    return Err(exclude_error(message));
                },
            };
            let mut reasons: Vec<PathReason> = Vec::new();
            if excluded {
                reasons.push(PathReason::AridExclude);
            }
            if !python {
                reasons.push(PathReason::UnsupportedSourceType);
            }
            proof {
                assert(reasons@ =~= file_reasons(excluded, python));
            }
            if reasons.len() == 0 {
                let reason = if explicit {
                    PathReason::ExplicitFile
                } else {
                    PathReason::Discovered
                };
                Ok(explanation(display_path, kind, target_symlink, explicit, PathDecision::Include, single(reason)))
            } else {
                let sorted = sort_by_priority(&reasons);
                Ok(explanation(display_path, kind, target_symlink, explicit, PathDecision::Exclude, sorted))
            }
        },
    }
}

/// Reasons to leave out a path below a scan root, in the order found.
pub open spec fn traversal_reasons(
    excluded: bool,
    hidden: bool,
    ignore_file: bool,
    kind: PathKind,
    python: bool,
) -> Seq<PathReason> {
    (if excluded {
        seq![PathReason::AridExclude]
    } else {
        seq![]
    }) + (if hidden {
        seq![PathReason::Hidden]
    } else {
        seq![]
    }) + (if ignore_file {
        seq![PathReason::IgnoreFile]
    } else {
        seq![]
    }) + (if kind == PathKind::File && !python {
        seq![PathReason::UnsupportedSourceType]
    } else {
        seq![]
    })
}

/// The message of a walk that excluded a path for no reason it can name.
pub open spec fn unexplained_exclusion_message() -> Seq<char> {
    "targeted discovery matcher excluded a path without a supported reason"@
}

/// Why the walk from one scan root would leave out `target`. The facts
/// come from the disk and the ignore matchers, in the order the walk
/// consults them: a symbolic link on the way decides alone; then Arid's
/// excludes; then whether the walk ignores the target, and if so whether
/// it would with ignore files left out (`hidden_ignored`: the hidden-file
/// rule alone) and, when ignore files apply, whether it would with hidden
/// files shown (`ignore_file_ignored`: the ignore files alone). A fact the
/// walk does not reach is not read.
pub fn traversal_exclusion_reasons(
    symlink_reason: Option<PathReason>,
    excluded: Result<bool, String>,
    ignored: Result<bool, OperationalError>,
    hidden_ignored: Result<bool, OperationalError>,
    ignore_file_ignored: Result<bool, OperationalError>,
    ignore_files: bool,
    kind: PathKind,
    python: bool,
) -> (result: Result<Vec<PathReason>, OperationalError>)
    ensures
        symlink_reason matches Some(r) ==> result matches Ok(v) && v@ == seq![r],
        symlink_reason is None ==> match excluded {
            Err(m) => result matches Err(e) && e.kind == ErrorKind::Discovery && e.message@ == exclude_error_message(m@)
                && e.path is None,
            Ok(x) => match ignored {
                Err(e0) => result == Err::<Vec<PathReason>, OperationalError>(e0),
                Ok(false) => result matches Ok(v) && v@ == dedup_adjacent(
                    by_priority(traversal_reasons(x, false, false, kind, python)),
                ),
                Ok(true) => match hidden_ignored {
                    Err(e0) => result == Err::<Vec<PathReason>, OperationalError>(e0),
                    Ok(h) => if ignore_files && ignore_file_ignored is Err {
                        result == Err::<Vec<PathReason>, OperationalError>(ignore_file_ignored->Err_0)
                    } else {
                        let f = ignore_files && ignore_file_ignored == Ok::<bool, OperationalError>(true);
                        if !h && !f {
                            result matches Err(e) && e.kind == ErrorKind::Internal && e.message@
                                == unexplained_exclusion_message() && e.path is None
                        } else {
                            result matches Ok(v) && v@ == dedup_adjacent(
                                by_priority(traversal_reasons(x, h, f, kind, python)),
                            )
                        }
                    },
                },
            },
        },
{
    if let Some(reason) = symlink_reason {
        return Ok(single(reason));
    }
    let excluded = match excluded {
        Ok(x) => x,
        Err(message) => {
            return Err(exclude_error(message));
        },
    };
    let ignored = match ignored {
        Ok(x) => x,
        Err(error) => {
            return Err(error);
        },
    };
    let mut hidden = false;
    let mut ignore_file = false;
    if ignored {
        hidden = match hidden_ignored {
            Ok(h) => h,
            Err(error) => {
                return Err(error);
            },
        };
        if ignore_files {
            ignore_file = match ignore_file_ignored {
                Ok(f) => f,
                Err(error) => {
                    return Err(error);
                },
            };
        }
        if !hidden && !ignore_file {
            return Err(
                OperationalError::new(
                    ErrorKind::Internal,
                    String::from_str("targeted discovery matcher excluded a path without a supported reason"),
                ),
            );
        }
    }
    let mut reasons: Vec<PathReason> = Vec::new();
    if excluded {
        reasons.push(PathReason::AridExclude);
    }
    if hidden {
        reasons.push(PathReason::Hidden);
    }
    if ignore_file {
        reasons.push(PathReason::IgnoreFile);
    }
    if kind == PathKind::File && !python {
        reasons.push(PathReason::UnsupportedSourceType);
    }
    proof {
        assert(reasons@ =~= traversal_reasons(excluded, hidden, ignore_file, kind, python));
    }
    let sorted = sort_by_priority(&reasons);
    Ok(dedup_reasons(&sorted))
}

/// The first scan root at the same location as `target`.
pub fn matching_root(roots: &Vec<InspectedPath>, target: &str) -> (found: Option<usize>)
    ensures
        match found {
            Some(k) => k < roots@.len() && path_components(roots@[k as int].path@) == path_components(target@)
                && forall|j: int| 0 <= j < k ==> path_components(#[trigger] roots@[j].path@) != path_components(target@),
            None => forall|j: int|
                0 <= j < roots@.len() ==> path_components(#[trigger] roots@[j].path@) != path_components(target@),
        },
{
    let mut k: usize = 0;
    while k < roots.len()
        invariant
            k <= roots@.len(),
            forall|j: int| 0 <= j < k ==> path_components(#[trigger] roots@[j].path@) != path_components(target@),
        decreases roots@.len() - k,
    {
        if same_location(roots[k].path.as_str(), target) {
            return Some(k);
        }
        k = k + 1;
    }
    None
}

/// A directory scan root whose walk can reach `target`.
pub open spec fn reaches(root: InspectedPath, target: Seq<char>) -> bool {
    root.kind == Some(PathKind::Directory) && path_components(root.path@).is_prefix_of(path_components(target))
}

/// Indices, in order, of the scan roots whose walk can reach `target`.
pub fn candidate_roots(roots: &Vec<InspectedPath>, target: &str) -> (found: Vec<usize>)
    ensures
        forall|i: int| 0 <= i < found@.len() ==> #[trigger] found@[i] < roots@.len() && reaches(roots@[found@[i] as int], target@),
        forall|i: int, j: int| 0 <= i < j < found@.len() ==> #[trigger] found@[i] < #[trigger] found@[j],
        forall|j: int| 0 <= j < roots@.len() && #[trigger] reaches(roots@[j], target@) ==> found@.contains(j as usize),
{
    let mut found: Vec<usize> = Vec::new();
    let mut k: usize = 0;
    while k < roots.len()
        invariant
            k <= roots@.len(),
            forall|i: int| 0 <= i < found@.len() ==> #[trigger] found@[i] < k && reaches(roots@[found@[i] as int], target@),
            forall|i: int, j: int| 0 <= i < j < found@.len() ==> #[trigger] found@[i] < #[trigger] found@[j],
            forall|j: int| 0 <= j < k && #[trigger] reaches(roots@[j], target@) ==> found@.contains(j as usize),
        decreases roots@.len() - k,
    {
        let root = &roots[k];
        let directory = match root.kind {
            Some(kind) => kind.is_dir(),
            None => false,
        };
        if directory && starts_with_components(target, root.path.as_str()) {
            let ghost before = found@;
            found.push(k);
            proof {
                assert forall|j: int| 0 <= j < k + 1 && #[trigger] reaches(roots@[j], target@) implies found@.contains(
                    j as usize,
                ) by {
                    if j < k {
                        let i = choose|i: int| 0 <= i < before.len() && before[i] == j as usize;
                        assert(found@[i] == j as usize);
                    } else {
                        assert(found@[found@.len() - 1] == j as usize);
                    }
                }
            }
        } else {
            proof {
                assert(!reaches(roots@[k as int], target@));
            }
        }
        k = k + 1;
    }
    found
}

/// `acc` followed by the reasons of `s` it lacks, each once, in order.
pub open spec fn append_new(acc: Seq<PathReason>, s: Seq<PathReason>) -> Seq<PathReason>
    decreases s.len(),
{
    if s.len() == 0 {
        acc
    } else {
        let a = append_new(acc, s.drop_last());
        if a.contains(s.last()) {
            a
        } else {
            a.push(s.last())
        }
    }
}

/// The reasons of all roots, each once, in order of first appearance.
pub open spec fn union_reasons(rs: Seq<Vec<PathReason>>) -> Seq<PathReason>
    decreases rs.len(),
{
    if rs.len() == 0 {
        seq![]
    } else {
        append_new(union_reasons(rs.drop_last()), rs.last()@)
    }
}

fn contains_reason(reasons: &Vec<PathReason>, reason: PathReason) -> (found: bool)
    ensures
        found == reasons@.contains(reason),
{
    let mut i: usize = 0;
    while i < reasons.len()
        invariant
            i <= reasons@.len(),
            forall|j: int| 0 <= j < i ==> reasons@[j] != reason,
        decreases reasons@.len() - i,
    {
        if reasons[i] == reason {
            return true;
        }
        i = i + 1;
    }
    false
}

/// Explains a path below the scan roots, given for each root that can
/// reach it, in order, why its walk would leave the path out. The path is
/// included when some walk keeps it; otherwise every reason is given once.
pub fn explain_descendant(
    display_path: String,
    kind: PathKind,
    symlink: bool,
    root_reasons: &Vec<Vec<PathReason>>,
) -> (e: PathExplanation)
    ensures
        root_reasons@.len() == 0 ==> explains(
            e,
            display_path@,
            kind,
            symlink,
            false,
            PathDecision::Exclude,
            seq![PathReason::OutsideScanRoots],
        ),
        (exists|k: int| 0 <= k < root_reasons@.len() && (#[trigger] root_reasons@[k])@.len() == 0) ==> explains(
            e,
            display_path@,
            kind,
            symlink,
            false,
            PathDecision::Include,
            seq![PathReason::Discovered],
        ),
        root_reasons@.len() > 0 && (forall|k: int| 0 <= k < root_reasons@.len() ==> (#[trigger] root_reasons@[k])@.len()
            > 0) ==> explains(
            e,
            display_path@,
            kind,
            symlink,
            false,
            PathDecision::Exclude,
            by_priority(union_reasons(root_reasons@)),
        ),
{
    if root_reasons.len() == 0 {
        return explanation(display_path, kind, symlink, false, PathDecision::Exclude, single(PathReason::OutsideScanRoots));
    }
    let mut union: Vec<PathReason> = Vec::new();
    let mut k: usize = 0;
    while k < root_reasons.len()
        invariant
            k <= root_reasons@.len(),
            forall|j: int| 0 <= j < k ==> (#[trigger] root_reasons@[j])@.len() > 0,
            union@ == union_reasons(root_reasons@.take(k as int)),
        decreases root_reasons@.len() - k,
    {
        let reasons = &root_reasons[k];
        if reasons.len() == 0 {
            return explanation(display_path, kind, symlink, false, PathDecision::Include, single(PathReason::Discovered));
        }
        let ghost base = union@;
        let mut i: usize = 0;
        while i < reasons.len()
            invariant
                i <= reasons@.len(),
                union@ == append_new(base, reasons@.take(i as int)),
            decreases reasons@.len() - i,
        {
            proof {
                assert(reasons@.take(i + 1).drop_last() =~= reasons@.take(i as int));
            }
            let reason = reasons[i];
            if !contains_reason(&union, reason) {
                union.push(reason);
            }
            i = i + 1;
        }
        proof {
            assert(reasons@.take(i as int) =~= reasons@);
            assert(root_reasons@.take(k + 1).drop_last() =~= root_reasons@.take(k as int));
        }
        k = k + 1;
    }
    proof {
        assert(root_reasons@.take(k as int) =~= root_reasons@);
    }
    let sorted = sort_by_priority(&union);
    explanation(display_path, kind, symlink, false, PathDecision::Exclude, sorted)
}

// ----------------------------------------------------------------------
// Output and options.
pub open spec fn bool_text(b: bool) -> Seq<char> {
    if b {
        "true"@
    } else {
        "false"@
    }
}

/// The reason names of `reasons`, separated by `, `.
pub open spec fn joined_reasons(reasons: Seq<PathReason>) -> Seq<char>
    decreases reasons.len(),
{
    if reasons.len() == 0 {
        seq![]
    } else if reasons.len() == 1 {
        reason_name(reasons[0])
    } else {
        joined_reasons(reasons.drop_last()) + ", "@ + reason_name(reasons.last())
    }
}

/// The first lines of the text form of an explanation.
pub open spec fn explanation_head(e: PathExplanation) -> Seq<char> {
    "Path explanation\n"@ + "Path: "@ + e.path@ + "\n"@ + "Kind: "@ + kind_name(e.kind) + "\n"@
}

/// The remaining lines of the text form of an explanation.
pub open spec fn explanation_tail(e: PathExplanation) -> Seq<char> {
    "Symlink: "@ + bool_text(e.symlink) + "\n"@ + "Explicit: "@ + bool_text(e.explicit) + "\n"@ + "Decision: "@
        + decision_name(e.decision) + "\n"@ + "Reasons: "@ + joined_reasons(e.reasons@) + "\n"@
}

/// The text form of an explanation.
pub open spec fn explanation_text(e: PathExplanation) -> Seq<char> {
    explanation_head(e) + explanation_tail(e)
}

fn bool_str(b: bool) -> (text: &'static str)
    ensures
        text@ == bool_text(b),
{
    if b {
        "true"
    } else {
        "false"
    }
}

fn push_explanation_head(out: &mut String, e: &PathExplanation)
    ensures
        final(out)@ == old(out)@ + explanation_head(*e),
{
    out.append("Path explanation\n");
    out.append("Path: ");
    out.append(e.path.as_str());
    out.append("\n");
    out.append("Kind: ");
    out.append(e.kind.as_str());
    out.append("\n");
}

fn push_explanation_tail(out: &mut String, e: &PathExplanation)
    ensures
        final(out)@ == old(out)@ + explanation_tail(*e),
{
    out.append("Symlink: ");
    out.append(bool_str(e.symlink));
    out.append("\n");
    out.append("Explicit: ");
    out.append(bool_str(e.explicit));
    out.append("\n");
    out.append("Decision: ");
    out.append(e.decision.as_str());
    out.append("\n");
    out.append("Reasons: ");
    let ghost start = out@;
    let mut i: usize = 0;
    while i < e.reasons.len()
        invariant
            i <= e.reasons@.len(),
            out@ == start + joined_reasons(e.reasons@.take(i as int)),
        decreases e.reasons@.len() - i,
    {
        proof {
            assert(e.reasons@.take(i + 1).drop_last() =~= e.reasons@.take(i as int));
        }
        if i > 0 {
            out.append(", ");
        }
        out.append(e.reasons[i].as_str());
        proof {
            if i == 0 {
                assert(out@ =~= start + joined_reasons(e.reasons@.take(i + 1)));
            }
        }
        i = i + 1;
    }
    proof {
        assert(e.reasons@.take(i as int) =~= e.reasons@);
    }
    out.append("\n");
}

/// Renders an explanation as text, one `Label: value` line per field.
pub fn render_path_explanation_text(e: &PathExplanation) -> (text: String)
    ensures
        text@ == explanation_text(*e),
{
    let mut text = String::new();
    push_explanation_head(&mut text, e);
    push_explanation_tail(&mut text, e);
    proof {
        assert(text@ =~= explanation_text(*e));
    }
    text
}

/// The first option given with `--explain-path` that it does not take.
pub open spec fn explain_conflict(cli: Cli) -> Option<Seq<char>> {
    if cli.capabilities {
        Some("--capabilities"@)
    } else if cli.show_config {
        Some("--show-config"@)
    } else if cli.list_files {
        Some("--list-files"@)
    } else if cli.suppression_status {
        Some("--suppression-status"@)
    } else if cli.fail_on_stale {
        Some("--fail-on-stale"@)
    } else if cli.stdin_path is Some {
        Some("--stdin-path"@)
    } else if cli.keep_going {
        Some("--keep-going"@)
    } else if cli.focus@.len() > 0 {
        Some("--focus"@)
    } else if cli.no_fail_on_findings {
        Some("--no-fail-on-findings"@)
    } else if cli.baseline is Some {
        Some("--baseline"@)
    } else if cli.baseline_status is Some {
        Some("--baseline-status"@)
    } else if cli.prune_baseline is Some {
        Some("--prune-baseline"@)
    } else if cli.write_baseline is Some {
        Some("--write-baseline"@)
    } else if cli.report@.len() > 0 {
        Some("--report"@)
    } else if cli.show_source {
        Some("--show-source"@)
    } else if cli.color is Some {
        Some("--color"@)
    } else {
        None
    }
}

/// The message for the first rule a path explanation's options break.
pub open spec fn explain_options_error(cli: Cli) -> Option<Seq<char>> {
    match explain_conflict(cli) {
        Some(option) => Some(option + " is not valid with --explain-path"@),
        None => {
            let format = selected_format(cli.json, cli.format);
            if format == OutputFormat::Markdown || format == OutputFormat::Sarif {
                Some("--explain-path supports only text or JSON output"@)
            } else {
                None
            }
        },
    }
}

fn explain_conflict_flag(cli: &Cli) -> (option: Option<&'static str>)
    ensures
        match option {
            Some(o) => explain_conflict(*cli) == Some(o@),
            None => explain_conflict(*cli) is None,
        },
{
    if cli.capabilities {
        Some("--capabilities")
    } else if cli.show_config {
        Some("--show-config")
    } else if cli.list_files {
        Some("--list-files")
    } else if cli.suppression_status {
        Some("--suppression-status")
    } else if cli.fail_on_stale {
        Some("--fail-on-stale")
    } else if cli.stdin_path.is_some() {
        Some("--stdin-path")
    } else if cli.keep_going {
        Some("--keep-going")
    } else if cli.focus.len() > 0 {
        Some("--focus")
    } else if cli.no_fail_on_findings {
        Some("--no-fail-on-findings")
    } else if cli.baseline.is_some() {
        Some("--baseline")
    } else if cli.baseline_status.is_some() {
        Some("--baseline-status")
    } else if cli.prune_baseline.is_some() {
        Some("--prune-baseline")
    } else if cli.write_baseline.is_some() {
        Some("--write-baseline")
    } else if cli.report.len() > 0 {
        Some("--report")
    } else if cli.show_source {
        Some("--show-source")
    } else if cli.color.is_some() {
        Some("--color")
    } else {
        None
    }
}

/// Rejects options that a path explanation does not take, and output
/// formats other than text and JSON.
pub fn validate_explain_options(cli: &Cli) -> (result: Result<(), OperationalError>)
    ensures
        result is Ok <==> explain_options_error(*cli) is None,
        result matches Err(e) ==> e.kind == ErrorKind::Configuration && e.message@ == explain_options_error(*cli)->0
            && e.path is None,
{
    if let Some(option) = explain_conflict_flag(cli) {
        return Err(
            OperationalError::new(
                ErrorKind::Configuration,
                String::from_str(option).concat(" is not valid with --explain-path"),
            ),
        );
    }
    let format = cli.output_format();
    if format == OutputFormat::Markdown || format == OutputFormat::Sarif {
        return Err(
            OperationalError::new(
                ErrorKind::Configuration,
                String::from_str("--explain-path supports only text or JSON output"),
            ),
        );
    }
    Ok(())
}

} // verus!
