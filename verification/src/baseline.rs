use sha2::{Digest, Sha256};
use vstd::prelude::*;
use vstd::string::StringExecFns;
use vstd::std_specs::convert::FromSpecImpl;

use crate::corpus::{line_range_valid, str_bytes, Corpus};
use crate::format::push_char;
use crate::model::{DuplicateGroup, NormalizationOptions, Occurrence, PreparedFile};
use crate::order::{
    bytes_le,
    bytes_lt,
    compare_bytes,
    Comparison,
    lemma_bytes_lt_asymmetric,
    lemma_bytes_lt_irreflexive,
    sort_indices_by_text,
    text_bytes,
};
use crate::paths::{
    join_slash,
    normal_component,
    relative_join,
    relative_result,
    valid_serialized,
    valid_serialized_path,
    ProjectPathError,
};
use vstd::string::StrSliceExecFns;

verus! {

/// The only baseline schema version this library reads and writes.
pub const BASELINE_SCHEMA_VERSION: u8 = 1;

/// Accepted duplicate debt, recorded for later runs.
#[derive(Debug, Clone, PartialEq, Eq)]
pub struct Baseline {
    pub version: u8,
    pub normalization: BaselineNormalization,
    pub groups: Vec<BaselineGroup>,
}

/// The normalization settings a baseline was recorded with.
#[derive(Debug, Clone, Copy, PartialEq, Eq, Structural)]
pub struct BaselineNormalization {
    pub ignore_comments: bool,
    pub ignore_docstrings: bool,
    pub ignore_imports: bool,
    pub ignore_signatures: bool,
}

impl From<NormalizationOptions> for BaselineNormalization {
    fn from(options: NormalizationOptions) -> (snapshot: Self) {
        BaselineNormalization {
            ignore_comments: options.ignore_comments,
            ignore_docstrings: options.ignore_docstrings,
            ignore_imports: options.ignore_imports,
            ignore_signatures: options.ignore_signatures,
        }
    }
}

/// The normalization settings that a baseline records.
pub open spec fn snapshot(options: NormalizationOptions) -> BaselineNormalization {
    BaselineNormalization {
        ignore_comments: options.ignore_comments,
        ignore_docstrings: options.ignore_docstrings,
        ignore_imports: options.ignore_imports,
        ignore_signatures: options.ignore_signatures,
    }
}

impl FromSpecImpl<NormalizationOptions> for BaselineNormalization {
    open spec fn obeys_from_spec() -> bool {
        true
    }

    open spec fn from_spec(options: NormalizationOptions) -> BaselineNormalization {
        BaselineNormalization {
            ignore_comments: options.ignore_comments,
            ignore_docstrings: options.ignore_docstrings,
            ignore_imports: options.ignore_imports,
            ignore_signatures: options.ignore_signatures,
        }
    }
}

/// One accepted duplicate block: its fingerprint, its effective line
/// count, and how many copies each path held.
#[derive(Debug, PartialEq, Eq)]
pub struct BaselineGroup {
    pub fingerprint: String,
    pub lines: u32,
    pub occurrences: Vec<BaselinePathCount>,
}

/// Number of copies of a block in one project-relative path.
#[derive(Debug, PartialEq, Eq)]
pub struct BaselinePathCount {
    pub path: String,
    pub count: u32,
}

/// `a` and `b` hold the same values.
pub open spec fn same_path_count(a: BaselinePathCount, b: BaselinePathCount) -> bool {
    a.path@ == b.path@ && a.count == b.count
}

/// `a` and `b` hold the same entries, in order.
pub open spec fn same_path_counts(a: Seq<BaselinePathCount>, b: Seq<BaselinePathCount>) -> bool {
    a.len() == b.len() && forall|k: int| 0 <= k < a.len() ==> same_path_count(#[trigger] a[k], b[k])
}

/// `a` and `b` hold the same values.
pub open spec fn same_baseline_group(a: BaselineGroup, b: BaselineGroup) -> bool {
    &&& a.fingerprint@ == b.fingerprint@
    &&& a.lines == b.lines
    &&& same_path_counts(a.occurrences@, b.occurrences@)
}

impl Clone for BaselinePathCount {
    fn clone(&self) -> (copy: Self)
        ensures
            same_path_count(copy, *self),
    {
        BaselinePathCount { path: self.path.clone(), count: self.count }
    }
}

/// Copies of `counts`, in order.
pub fn copy_path_counts(counts: &Vec<BaselinePathCount>) -> (copy: Vec<BaselinePathCount>)
    ensures
        same_path_counts(copy@, counts@),
{
    let mut copy: Vec<BaselinePathCount> = Vec::new();
    let mut i: usize = 0;
    while i < counts.len()
        invariant
            i <= counts@.len(),
            copy@.len() == i,
            forall|k: int| 0 <= k < i ==> same_path_count(#[trigger] copy@[k], counts@[k]),
        decreases counts@.len() - i,
    {
        copy.push(counts[i].clone());
        i = i + 1;
    }
    copy
}

impl Clone for BaselineGroup {
    fn clone(&self) -> (copy: Self)
        ensures
            same_baseline_group(copy, *self),
    {
        BaselineGroup {
            fingerprint: self.fingerprint.clone(),
            lines: self.lines,
            occurrences: copy_path_counts(&self.occurrences),
        }
    }
}

/// Why a baseline could not be built, read, checked or written.
#[derive(Debug, Clone, PartialEq, Eq)]
pub enum BaselineError {
    EmptyGroup,
    InvalidFile { file: u32 },
    InvalidOccurrenceRange { path: String, start: u32, length: u32 },
    InvalidLineRange { path: String, start: u32, end: u32 },
    LineTooLong,
    PathOutsideProjectRoot { path: String, root: String },
    InvalidProjectRelativePath { path: String },
    OccurrenceCountOverflow { path: String },
    DuplicateFingerprint { fingerprint: String },
    Read { path: String, message: String },
    Write { path: String, message: String },
    Parse { path: String, message: String },
    Serialize(String),
    UnsupportedSchemaVersion { found: u8, supported: u8 },
    NormalizationMismatch { baseline: BaselineNormalization, current: BaselineNormalization },
    InvalidFingerprint { fingerprint: String },
    InvalidBaselineLines { fingerprint: String },
    EmptyBaselineOccurrences { fingerprint: String },
    InvalidBaselinePath { path: String },
    ZeroBaselineOccurrenceCount { fingerprint: String, path: String },
    DuplicateBaselineGroup { fingerprint: String },
    DuplicateBaselinePath { fingerprint: String, path: String },
    DebtCountOverflow,
}

/// A lowercase hexadecimal digit.
pub open spec fn lower_hex_char(c: char) -> bool {
    ('0' <= c && c <= '9') || ('a' <= c && c <= 'f')
}

/// `sha256:` followed by 64 lowercase hexadecimal digits.
pub open spec fn valid_fingerprint_text(s: Seq<char>) -> bool {
    &&& s.len() == 71
    &&& s.take(7) == seq!['s', 'h', 'a', '2', '5', '6', ':']
    &&& forall|k: int| 7 <= k < 71 ==> lower_hex_char(#[trigger] s[k])
}

/// True when `fingerprint` has the shape of a group fingerprint.
pub fn valid_fingerprint(fingerprint: &str) -> (valid: bool)
    ensures
        valid == valid_fingerprint_text(fingerprint@),
{
    let n = fingerprint.unicode_len();
    if n != 71 {
        return false;
    }
    let prefix = ['s', 'h', 'a', '2', '5', '6', ':'];
    let mut i: usize = 0;
    while i < 7
        invariant
            n == fingerprint@.len() == 71,
            i <= 7,
            prefix@ == seq!['s', 'h', 'a', '2', '5', '6', ':'],
            forall|k: int| 0 <= k < i ==> fingerprint@[k] == prefix@[k],
        decreases 7 - i,
    {
        if fingerprint.get_char(i) != prefix[i] {
            proof {
                assert(fingerprint@.take(7)[i as int] != prefix@[i as int]);
            }
            return false;
        }
        i = i + 1;
    }
    proof {
        assert(fingerprint@.take(7) =~= seq!['s', 'h', 'a', '2', '5', '6', ':']);
    }
    while i < 71
        invariant
            n == fingerprint@.len() == 71,
            7 <= i <= 71,
            fingerprint@.take(7) == seq!['s', 'h', 'a', '2', '5', '6', ':'],
            forall|k: int| 7 <= k < i ==> lower_hex_char(#[trigger] fingerprint@[k]),
        decreases 71 - i,
    {
        let c = fingerprint.get_char(i);
        if !(('0' <= c && c <= '9') || ('a' <= c && c <= 'f')) {
            return false;
        }
        i = i + 1;
    }
    true
}

/// Rejects a baseline of another schema version.
pub fn validate_schema_version(baseline: &Baseline) -> (result: Result<(), BaselineError>)
    ensures
        result is Ok <==> baseline.version == BASELINE_SCHEMA_VERSION,
        result matches Err(e) ==> e == (BaselineError::UnsupportedSchemaVersion {
            found: baseline.version,
            supported: BASELINE_SCHEMA_VERSION,
        }),
{
    if baseline.version != BASELINE_SCHEMA_VERSION {
        return Err(
            BaselineError::UnsupportedSchemaVersion {
                found: baseline.version,
                supported: BASELINE_SCHEMA_VERSION,
            },
        );
    }
    Ok(())
}

/// One recorded path count is well formed.
pub open spec fn path_count_valid(c: BaselinePathCount) -> bool {
    valid_serialized(c.path@) && c.count > 0
}

/// One recorded group is well formed, apart from repeated paths.
pub open spec fn group_fields_valid(g: BaselineGroup) -> bool {
    &&& valid_fingerprint_text(g.fingerprint@)
    &&& g.lines > 0
    &&& g.occurrences@.len() > 0
    &&& forall|k: int| 0 <= k < g.occurrences@.len() ==> path_count_valid(#[trigger] g.occurrences@[k])
}

/// Two entries of `occ` name the same path.
pub open spec fn repeats_path(occ: Seq<BaselinePathCount>) -> bool {
    exists|a: int, b: int|
        0 <= a < occ.len() && 0 <= b < occ.len() && a != b && (#[trigger] occ[a]).path@ == (
        #[trigger] occ[b]).path@
}

/// Two groups share a fingerprint.
pub open spec fn repeats_fingerprint(groups: Seq<BaselineGroup>) -> bool {
    exists|a: int, b: int|
        0 <= a < groups.len() && 0 <= b < groups.len() && a != b && (#[trigger] groups[a]).fingerprint@
            == (#[trigger] groups[b]).fingerprint@
}

/// Entries strictly increasing by path bytes.
pub open spec fn counts_sorted(occ: Seq<BaselinePathCount>) -> bool {
    forall|a: int, b: int|
        0 <= a < b < occ.len() ==> bytes_lt(
            text_bytes((#[trigger] occ[a]).path@),
            text_bytes((#[trigger] occ[b]).path@),
        )
}

/// Groups strictly increasing by fingerprint bytes.
pub open spec fn groups_sorted(groups: Seq<BaselineGroup>) -> bool {
    forall|a: int, b: int|
        0 <= a < b < groups.len() ==> bytes_lt(
            text_bytes((#[trigger] groups[a]).fingerprint@),
            text_bytes((#[trigger] groups[b]).fingerprint@),
        )
}

/// Some entry of `a` holds the values of `x`.
pub open spec fn has_entry(a: Seq<BaselinePathCount>, x: BaselinePathCount) -> bool {
    exists|j: int| 0 <= j < a.len() && same_path_count(#[trigger] a[j], x)
}

/// `b` holds the entries of `a` in some order.
pub open spec fn same_entries(a: Seq<BaselinePathCount>, b: Seq<BaselinePathCount>) -> bool {
    &&& a.len() == b.len()
    &&& forall|i: int| 0 <= i < b.len() ==> has_entry(a, #[trigger] b[i])
    &&& forall|j: int| 0 <= j < a.len() ==> has_entry(b, #[trigger] a[j])
}

proof fn lemma_distinct_text(a: Seq<char>, b: Seq<char>)
    requires
        a != b,
    ensures
        text_bytes(a) != text_bytes(b),
{
    vstd::utf8::encode_utf8_decode_utf8(a);
    vstd::utf8::encode_utf8_decode_utf8(b);
}

/// The entries of `occ` in path order, or the first repeated path.
fn sort_path_counts(occ: &Vec<BaselinePathCount>) -> (result: Result<Vec<BaselinePathCount>, String>)
    ensures
        result is Ok <==> !repeats_path(occ@),
        result matches Ok(sorted) ==> counts_sorted(sorted@) && same_entries(occ@, sorted@),
        result matches Err(path) ==> exists|k: int| 0 <= k < occ@.len() && (#[trigger] occ@[k]).path@ == path@,
{
    let mut keys: Vec<String> = Vec::new();
    let mut i: usize = 0;
    while i < occ.len()
        invariant
            i <= occ@.len(),
            keys@.len() == i,
            forall|k: int| 0 <= k < i ==> #[trigger] keys@[k]@ == occ@[k].path@,
        decreases occ@.len() - i,
    {
        keys.push(occ[i].path.clone());
        i = i + 1;
    }
    let order = sort_indices_by_text(&keys);
    let mut sorted: Vec<BaselinePathCount> = Vec::new();
    let mut r: usize = 0;
    while r < order.len()
        invariant
            r <= order@.len(),
            order@.len() == occ@.len(),
            order@.no_duplicates(),
            forall|p: usize| p < occ@.len() ==> #[trigger] order@.contains(p),
            keys@.len() == occ@.len(),
            forall|k: int| 0 <= k < keys@.len() ==> #[trigger] keys@[k]@ == occ@[k].path@,
            forall|t: int| 0 <= t < order@.len() ==> #[trigger] order@[t] < occ@.len(),
            forall|a: int, b: int|
                0 <= a < b < order@.len() ==> bytes_le(
                    text_bytes(keys@[#[trigger] order@[a] as int]@),
                    text_bytes(keys@[#[trigger] order@[b] as int]@),
                ),
            sorted@.len() == r,
            forall|t: int| 0 <= t < r ==> same_path_count(#[trigger] sorted@[t], occ@[order@[t] as int]),
            forall|a: int, b: int|
                0 <= a < b < r ==> bytes_lt(
                    text_bytes((#[trigger] sorted@[a]).path@),
                    text_bytes((#[trigger] sorted@[b]).path@),
                ),
        decreases order@.len() - r,
    {
        let entry = &occ[order[r]];
        if r > 0 {
            let previous = &occ[order[r - 1]];
            if previous.path == entry.path {
                proof {
                    assert(order@[r - 1] != order@[r as int]);
                    assert(occ@[order@[r - 1] as int].path@ == occ@[order@[r as int] as int].path@);
                }
                return Err(entry.path.clone());
            }
            proof {
                let pa = occ@[order@[r - 1] as int].path@;
                let pb = occ@[order@[r as int] as int].path@;
                lemma_distinct_text(pa, pb);
                assert(bytes_le(text_bytes(pa), text_bytes(pb)));
                assert forall|a: int| 0 <= a < r implies bytes_lt(
                    text_bytes((#[trigger] sorted@[a]).path@),
                    text_bytes(pb),
                ) by {
                    if a < r - 1 {
                        assert(bytes_lt(text_bytes(sorted@[a].path@), text_bytes(sorted@[r - 1].path@)));
                        crate::order::lemma_bytes_lt_transitive(
                            text_bytes(sorted@[a].path@),
                            text_bytes(pa),
                            text_bytes(pb),
                        );
                    }
                }
            }
        }
        let ghost before = sorted@;
        sorted.push(entry.clone());
        proof {
            assert forall|t: int| 0 <= t < before.len() implies #[trigger] sorted@[t] == before[t] by {}
        }
        r = r + 1;
    }
    proof {
        assert(!repeats_path(occ@)) by {
            if repeats_path(occ@) {
                let (a, b) = choose|a: int, b: int|
                    0 <= a < occ@.len() && 0 <= b < occ@.len() && a != b && (#[trigger] occ@[a]).path@
                        == (#[trigger] occ@[b]).path@;
                assert(order@.contains(a as usize));
                assert(order@.contains(b as usize));
                let ra = choose|t: int| 0 <= t < order@.len() && order@[t] == a as usize;
                let rb = choose|t: int| 0 <= t < order@.len() && order@[t] == b as usize;
                assert(same_path_count(sorted@[ra], occ@[a]));
                assert(same_path_count(sorted@[rb], occ@[b]));
                if ra < rb {
                    assert(bytes_lt(text_bytes(sorted@[ra].path@), text_bytes(sorted@[rb].path@)));
                } else {
                    assert(ra != rb);
                    assert(bytes_lt(text_bytes(sorted@[rb].path@), text_bytes(sorted@[ra].path@)));
                }
                lemma_bytes_lt_irreflexive(text_bytes(occ@[a].path@));
            }
        }
        assert forall|i: int| 0 <= i < sorted@.len() implies has_entry(occ@, #[trigger] sorted@[i]) by {
            let j = order@[i] as int;
            assert(same_path_count(occ@[j], sorted@[i]));
        }
        assert forall|j: int| 0 <= j < occ@.len() implies has_entry(sorted@, #[trigger] occ@[j]) by {
            assert(order@.contains(j as usize));
            let i = choose|t: int| 0 <= t < order@.len() && order@[t] == j as usize;
            assert(same_path_count(sorted@[i], occ@[j]));
        }
    }
    Ok(sorted)
}


/// Some group of `a` holds the values of `x`.
pub open spec fn has_group(a: Seq<BaselineGroup>, x: BaselineGroup) -> bool {
    exists|j: int| 0 <= j < a.len() && same_baseline_group(#[trigger] a[j], x)
}

/// `b` holds the groups of `a` in some order.
pub open spec fn same_groups(a: Seq<BaselineGroup>, b: Seq<BaselineGroup>) -> bool {
    &&& a.len() == b.len()
    &&& forall|i: int| 0 <= i < b.len() ==> has_group(a, #[trigger] b[i])
    &&& forall|j: int| 0 <= j < a.len() ==> has_group(b, #[trigger] a[j])
}

/// The groups in fingerprint order, or the first repeated fingerprint.
fn sort_groups(occ: &Vec<BaselineGroup>) -> (result: Result<Vec<BaselineGroup>, String>)
    ensures
        result is Ok <==> !repeats_fingerprint(occ@),
        result matches Ok(sorted) ==> groups_sorted(sorted@) && same_groups(occ@, sorted@),
        result matches Err(path) ==> exists|k: int| 0 <= k < occ@.len() && (#[trigger] occ@[k]).fingerprint@ == path@,
{
    let mut keys: Vec<String> = Vec::new();
    let mut i: usize = 0;
    while i < occ.len()
        invariant
            i <= occ@.len(),
            keys@.len() == i,
            forall|k: int| 0 <= k < i ==> #[trigger] keys@[k]@ == occ@[k].fingerprint@,
        decreases occ@.len() - i,
    {
        keys.push(occ[i].fingerprint.clone());
        i = i + 1;
    }
    let order = sort_indices_by_text(&keys);
    let mut sorted: Vec<BaselineGroup> = Vec::new();
    let mut r: usize = 0;
    while r < order.len()
        invariant
            r <= order@.len(),
            order@.len() == occ@.len(),
            order@.no_duplicates(),
            forall|p: usize| p < occ@.len() ==> #[trigger] order@.contains(p),
            keys@.len() == occ@.len(),
            forall|k: int| 0 <= k < keys@.len() ==> #[trigger] keys@[k]@ == occ@[k].fingerprint@,
            forall|t: int| 0 <= t < order@.len() ==> #[trigger] order@[t] < occ@.len(),
            forall|a: int, b: int|
                0 <= a < b < order@.len() ==> bytes_le(
                    text_bytes(keys@[#[trigger] order@[a] as int]@),
                    text_bytes(keys@[#[trigger] order@[b] as int]@),
                ),
            sorted@.len() == r,
            forall|t: int| 0 <= t < r ==> same_baseline_group(#[trigger] sorted@[t], occ@[order@[t] as int]),
            forall|a: int, b: int|
                0 <= a < b < r ==> bytes_lt(
                    text_bytes((#[trigger] sorted@[a]).fingerprint@),
                    text_bytes((#[trigger] sorted@[b]).fingerprint@),
                ),
        decreases order@.len() - r,
    {
        let entry = &occ[order[r]];
        if r > 0 {
            let previous = &occ[order[r - 1]];
            if previous.fingerprint == entry.fingerprint {
                proof {
                    assert(order@[r - 1] != order@[r as int]);
                    assert(occ@[order@[r - 1] as int].fingerprint@ == occ@[order@[r as int] as int].fingerprint@);
                }
                return Err(entry.fingerprint.clone());
            }
            proof {
                let pa = occ@[order@[r - 1] as int].fingerprint@;
                let pb = occ@[order@[r as int] as int].fingerprint@;
                lemma_distinct_text(pa, pb);
                assert(bytes_le(text_bytes(pa), text_bytes(pb)));
                assert forall|a: int| 0 <= a < r implies bytes_lt(
                    text_bytes((#[trigger] sorted@[a]).fingerprint@),
                    text_bytes(pb),
                ) by {
                    if a < r - 1 {
                        assert(bytes_lt(text_bytes(sorted@[a].fingerprint@), text_bytes(sorted@[r - 1].fingerprint@)));
                        crate::order::lemma_bytes_lt_transitive(
                            text_bytes(sorted@[a].fingerprint@),
                            text_bytes(pa),
                            text_bytes(pb),
                        );
                    }
                }
            }
        }
        let ghost before = sorted@;
        sorted.push(entry.clone());
        proof {
            assert forall|t: int| 0 <= t < before.len() implies #[trigger] sorted@[t] == before[t] by {}
        }
        r = r + 1;
    }
    proof {
        assert(!repeats_fingerprint(occ@)) by {
            if repeats_fingerprint(occ@) {
                let (a, b) = choose|a: int, b: int|
                    0 <= a < occ@.len() && 0 <= b < occ@.len() && a != b && (#[trigger] occ@[a]).fingerprint@
                        == (#[trigger] occ@[b]).fingerprint@;
                assert(order@.contains(a as usize));
                assert(order@.contains(b as usize));
                let ra = choose|t: int| 0 <= t < order@.len() && order@[t] == a as usize;
                let rb = choose|t: int| 0 <= t < order@.len() && order@[t] == b as usize;
                assert(same_baseline_group(sorted@[ra], occ@[a]));
                assert(same_baseline_group(sorted@[rb], occ@[b]));
                if ra < rb {
                    assert(bytes_lt(text_bytes(sorted@[ra].fingerprint@), text_bytes(sorted@[rb].fingerprint@)));
                } else {
                    assert(ra != rb);
                    assert(bytes_lt(text_bytes(sorted@[rb].fingerprint@), text_bytes(sorted@[ra].fingerprint@)));
                }
                lemma_bytes_lt_irreflexive(text_bytes(occ@[a].fingerprint@));
            }
        }
        assert forall|i: int| 0 <= i < sorted@.len() implies has_group(occ@, #[trigger] sorted@[i]) by {
            let j = order@[i] as int;
            assert(same_baseline_group(occ@[j], sorted@[i]));
        }
        assert forall|j: int| 0 <= j < occ@.len() implies has_group(sorted@, #[trigger] occ@[j]) by {
            assert(order@.contains(j as usize));
            let i = choose|t: int| 0 <= t < order@.len() && order@[t] == j as usize;
            assert(same_baseline_group(sorted@[i], occ@[j]));
        }
    }
    Ok(sorted)
}

/// One recorded group, with its paths in order, if it is well formed.
fn check_group(group: &BaselineGroup) -> (result: Result<BaselineGroup, BaselineError>)
    ensures
        result is Ok <==> group_fields_valid(*group) && !repeats_path(group.occurrences@),
        result matches Ok(g) ==> g.fingerprint@ == group.fingerprint@ && g.lines == group.lines
            && counts_sorted(g.occurrences@) && same_entries(group.occurrences@, g.occurrences@),
{
    if !valid_fingerprint(group.fingerprint.as_str()) {
        return Err(BaselineError::InvalidFingerprint { fingerprint: group.fingerprint.clone() });
    }
    if group.lines == 0 {
        return Err(BaselineError::InvalidBaselineLines { fingerprint: group.fingerprint.clone() });
    }
    if group.occurrences.len() == 0 {
        return Err(BaselineError::EmptyBaselineOccurrences { fingerprint: group.fingerprint.clone() });
    }
    let mut i: usize = 0;
    while i < group.occurrences.len()
        invariant
            i <= group.occurrences@.len(),
            forall|k: int| 0 <= k < i ==> path_count_valid(#[trigger] group.occurrences@[k]),
        decreases group.occurrences@.len() - i,
    {
        let occurrence = &group.occurrences[i];
        if !valid_serialized_path(occurrence.path.as_str()) {
            return Err(BaselineError::InvalidBaselinePath { path: occurrence.path.clone() });
        }
        if occurrence.count == 0 {
            return Err(
                BaselineError::ZeroBaselineOccurrenceCount {
                    fingerprint: group.fingerprint.clone(),
                    path: occurrence.path.clone(),
                },
            );
        }
        i = i + 1;
    }
    match sort_path_counts(&group.occurrences) {
        Ok(occurrences) => Ok(
            BaselineGroup { fingerprint: group.fingerprint.clone(), lines: group.lines, occurrences },
        ),
        Err(path) => Err(
            BaselineError::DuplicateBaselinePath { fingerprint: group.fingerprint.clone(), path },
        ),
    }
}

/// Some group of `before` has the fingerprint and line count of `g` and
/// the same entries.
pub open spec fn recorded_in(before: Seq<BaselineGroup>, g: BaselineGroup) -> bool {
    exists|j: int|
        0 <= j < before.len() && (#[trigger] before[j]).fingerprint@ == g.fingerprint@ && before[j].lines
            == g.lines && same_entries(before[j].occurrences@, g.occurrences@)
}

/// Some group of `after` has the fingerprint and line count of `g` and
/// the same entries.
pub open spec fn kept_in(after: Seq<BaselineGroup>, g: BaselineGroup) -> bool {
    exists|k: int|
        0 <= k < after.len() && g.fingerprint@ == (#[trigger] after[k]).fingerprint@ && g.lines
            == after[k].lines && same_entries(g.occurrences@, after[k].occurrences@)
}

/// Every recorded group is well formed and names each path once.
pub open spec fn groups_valid(groups: Seq<BaselineGroup>) -> bool {
    forall|k: int|
        0 <= k < groups.len() ==> group_fields_valid(#[trigger] groups[k]) && !repeats_path(
            groups[k].occurrences@,
        )
}

/// Checks every recorded group, puts each group's paths and the groups
/// themselves in order, and rejects repeated paths and fingerprints.
/// On an error the baseline is left as it was.
pub fn validate_baseline_groups(baseline: &mut Baseline) -> (result: Result<(), BaselineError>)
    ensures
        result is Ok <==> groups_valid(old(baseline).groups@) && !repeats_fingerprint(
            old(baseline).groups@,
        ),
        result is Err ==> final(baseline).groups@ == old(baseline).groups@,
        final(baseline).version == old(baseline).version,
        final(baseline).normalization == old(baseline).normalization,
        result is Ok ==> {
            let before = old(baseline).groups@;
            let after = final(baseline).groups@;
            &&& after.len() == before.len()
            &&& groups_sorted(after)
            &&& forall|k: int| 0 <= k < after.len() ==> counts_sorted((#[trigger] after[k]).occurrences@)
            &&& forall|k: int| 0 <= k < after.len() ==> recorded_in(before, #[trigger] after[k])
            &&& forall|j: int| 0 <= j < before.len() ==> kept_in(after, #[trigger] before[j])
        },
{
    let ghost before = baseline.groups@;
    let mut checked: Vec<BaselineGroup> = Vec::new();
    let mut i: usize = 0;
    while i < baseline.groups.len()
        invariant
            before == baseline.groups@,
            i <= before.len(),
            checked@.len() == i,
            forall|k: int|
                0 <= k < i ==> group_fields_valid(#[trigger] before[k]) && !repeats_path(
                    before[k].occurrences@,
                ),
            forall|k: int|
                0 <= k < i ==> (#[trigger] checked@[k]).fingerprint@ == before[k].fingerprint@
                    && checked@[k].lines == before[k].lines && counts_sorted(checked@[k].occurrences@)
                    && same_entries(before[k].occurrences@, checked@[k].occurrences@),
        decreases before.len() - i,
    {
        match check_group(&baseline.groups[i]) {
            Ok(group) => {
                checked.push(group);
            },
            Err(error) => {
                return Err(error);
            },
        }
        i = i + 1;
    }
    proof {
        assert(!repeats_fingerprint(before) <==> !repeats_fingerprint(checked@)) by {
            if repeats_fingerprint(before) {
                let (a, b) = choose|a: int, b: int|
                    0 <= a < before.len() && 0 <= b < before.len() && a != b && (#[trigger] before[a]).fingerprint@
                        == (#[trigger] before[b]).fingerprint@;
                assert(checked@[a].fingerprint@ == checked@[b].fingerprint@);
            }
            if repeats_fingerprint(checked@) {
                let (a, b) = choose|a: int, b: int|
                    0 <= a < checked@.len() && 0 <= b < checked@.len() && a != b && (
                    #[trigger] checked@[a]).fingerprint@ == (#[trigger] checked@[b]).fingerprint@;
                assert(before[a].fingerprint@ == before[b].fingerprint@);
            }
        }
    }
    match sort_groups(&checked) {
        Ok(sorted) => {
            proof {
                lemma_sorted_groups_recorded(before, checked@, sorted@);
            }
            baseline.groups = sorted;
            Ok(())
        },
        Err(fingerprint) => Err(BaselineError::DuplicateBaselineGroup { fingerprint }),
    }
}

/// An entry-for-entry copy of path-sorted entries is path-sorted.
proof fn lemma_counts_sorted_copy(a: Seq<BaselinePathCount>, b: Seq<BaselinePathCount>)
    requires
        counts_sorted(a),
        same_path_counts(a, b),
    ensures
        counts_sorted(b),
{
    assert forall|x: int, y: int| 0 <= x < y < b.len() implies bytes_lt(
        text_bytes((#[trigger] b[x]).path@),
        text_bytes((#[trigger] b[y]).path@),
    ) by {
        assert(same_path_count(a[x], b[x]) && same_path_count(a[y], b[y]));
        assert(bytes_lt(text_bytes(a[x].path@), text_bytes(a[y].path@)));
    }
}

/// Entry-for-entry copies are symmetric.
proof fn lemma_same_path_counts_symmetric(a: Seq<BaselinePathCount>, b: Seq<BaselinePathCount>)
    requires
        same_path_counts(a, b),
    ensures
        same_path_counts(b, a),
{
    assert forall|t: int| 0 <= t < b.len() implies same_path_count(#[trigger] b[t], a[t]) by {
        assert(same_path_count(a[t], b[t]));
    }
}

/// Groups checked one for one from `before` and then sorted keep every
/// recorded group and add none.
proof fn lemma_sorted_groups_recorded(
    before: Seq<BaselineGroup>,
    checked: Seq<BaselineGroup>,
    sorted: Seq<BaselineGroup>,
)
    requires
        checked.len() == before.len(),
        forall|k: int|
            0 <= k < checked.len() ==> (#[trigger] checked[k]).fingerprint@ == before[k].fingerprint@
                && checked[k].lines == before[k].lines && counts_sorted(checked[k].occurrences@)
                && same_entries(before[k].occurrences@, checked[k].occurrences@),
        same_groups(checked, sorted),
    ensures
        forall|k: int| 0 <= k < sorted.len() ==> recorded_in(before, #[trigger] sorted[k]),
        forall|j: int| 0 <= j < before.len() ==> kept_in(sorted, #[trigger] before[j]),
        forall|k: int| 0 <= k < sorted.len() ==> counts_sorted((#[trigger] sorted[k]).occurrences@),
{
    assert forall|k: int| 0 <= k < sorted.len() implies recorded_in(before, #[trigger] sorted[k])
        && counts_sorted(sorted[k].occurrences@) by {
        assert(has_group(checked, sorted[k]));
        let j = choose|j: int| 0 <= j < checked.len() && same_baseline_group(#[trigger] checked[j], sorted[k]);
        lemma_same_entries_chain(before[j].occurrences@, checked[j].occurrences@, sorted[k].occurrences@);
        lemma_counts_sorted_copy(checked[j].occurrences@, sorted[k].occurrences@);
    }
    assert forall|j: int| 0 <= j < before.len() implies kept_in(sorted, #[trigger] before[j]) by {
        assert(has_group(sorted, checked[j]));
        let k = choose|k: int| 0 <= k < sorted.len() && same_baseline_group(#[trigger] sorted[k], checked[j]);
        lemma_same_path_counts_symmetric(sorted[k].occurrences@, checked[j].occurrences@);
        lemma_same_entries_chain(before[j].occurrences@, checked[j].occurrences@, sorted[k].occurrences@);
    }
}

/// Holding the same entries is preserved by an entry-for-entry copy.
proof fn lemma_same_entries_chain(
    a: Seq<BaselinePathCount>,
    b: Seq<BaselinePathCount>,
    c: Seq<BaselinePathCount>,
)
    requires
        same_entries(a, b),
        same_path_counts(b, c),
    ensures
        same_entries(a, c),
{
    assert forall|i: int| 0 <= i < c.len() implies has_entry(a, #[trigger] c[i]) by {
        assert(same_path_count(b[i], c[i]));
        assert(has_entry(a, b[i]));
        let j = choose|j: int| 0 <= j < a.len() && same_path_count(#[trigger] a[j], b[i]);
        assert(same_path_count(a[j], c[i]));
    }
    assert forall|j: int| 0 <= j < a.len() implies has_entry(c, #[trigger] a[j]) by {
        assert(has_entry(b, a[j]));
        let i = choose|i: int| 0 <= i < b.len() && same_path_count(#[trigger] b[i], a[j]);
        assert(same_path_count(b[i], c[i]));
        assert(same_path_count(c[i], a[j]));
    }
}

// ----------------------------------------------------------------------
// Group fingerprints.
/// Name for the SHA-256 digest of `message`.
pub uninterp spec fn sha256_of(message: Seq<u8>) -> Seq<u8>;

/// SHA-256 digest of `message`.
///
/// Trusted: `sha2::Sha256::digest`, which returns the 32-byte SHA-256
/// digest of its input; the digest depends on the input bytes alone.
#[verifier::external_body]
pub(crate) fn sha256(message: &[u8]) -> (digest: Vec<u8>)
    ensures
        digest@ == sha256_of(message@),
        digest@.len() == 32,
{
    Sha256::digest(message).to_vec()
}

/// Big-endian bytes of `v`.
pub open spec fn be32(v: u32) -> Seq<u8> {
    seq![
        (v / 16777216) as u8,
        ((v / 65536) % 256) as u8,
        ((v / 256) % 256) as u8,
        (v % 256) as u8,
    ]
}

/// The bytes that open every group fingerprint message:
/// `arid-baseline-group-v1` and a NUL.
pub open spec fn fingerprint_domain() -> Seq<u8> {
    seq![
        97u8, 114, 105, 100, 45, 98, 97, 115, 101, 108, 105, 110, 101, 45, 103, 114, 111, 117, 112,
        45, 118, 49, 0,
    ]
}

/// Bytes of normalized line `i` of `file`.
pub open spec fn line_bytes(file: PreparedFile, i: int) -> Seq<u8> {
    let range = file.lines@[i].text_range;
    str_bytes(file.normalized@).subrange(range.start as int, range.end as int)
}

/// Each of lines `start..end`: its byte length, big-endian, then its bytes.
pub open spec fn lines_message(file: PreparedFile, start: int, end: int) -> Seq<u8>
    decreases end - start,
{
    if end <= start {
        seq![]
    } else {
        lines_message(file, start, end - 1) + be32(line_bytes(file, end - 1).len() as u32) + line_bytes(
            file,
            end - 1,
        )
    }
}

/// What a group's fingerprint digests: the domain, the effective line
/// count, and the lines of its first occurrence.
pub open spec fn fingerprint_message(file: PreparedFile, effective_lines: u32, start: int, end: int) -> Seq<u8> {
    fingerprint_domain() + be32(effective_lines) + lines_message(file, start, end)
}

/// Lowercase hexadecimal digit of `v`, below sixteen.
pub open spec fn lower_hex(v: int) -> char {
    if v < 10 {
        (48 + v) as char
    } else {
        (87 + v) as char
    }
}

/// Lowercase hexadecimal digits of `bytes`, two per byte.
pub open spec fn hex_lower(bytes: Seq<u8>) -> Seq<char>
    decreases bytes.len(),
{
    if bytes.len() == 0 {
        seq![]
    } else {
        hex_lower(bytes.drop_last()) + seq![lower_hex((bytes.last() / 16) as int), lower_hex((bytes.last() % 16) as int)]
    }
}

/// `sha256:` and the digest of a group's message in lowercase hex.
pub open spec fn fingerprint_text(file: PreparedFile, effective_lines: u32, start: int, end: int) -> Seq<char> {
    seq!['s', 'h', 'a', '2', '5', '6', ':'] + hex_lower(sha256_of(fingerprint_message(file, effective_lines, start, end)))
}

/// The occurrence lies on lines of an existing file and has the group's
/// length, which is at least one.
pub open spec fn occurrence_valid(corpus: Corpus, group: DuplicateGroup, o: Occurrence) -> bool {
    &&& o.file < corpus.files@.len()
    &&& o.normalized_len == group.normalized_len
    &&& o.normalized_start + o.normalized_len <= corpus.files@[o.file as int].lines@.len()
    &&& o.normalized_len > 0
}

/// The file and line range of `occurrence`, if it is valid.
pub(crate) fn occurrence_lines(corpus: &Corpus, group: &DuplicateGroup, occurrence: Occurrence) -> (result: Result<
    (usize, usize, usize),
    BaselineError,
>)
    ensures
        result is Ok <==> occurrence_valid(*corpus, *group, occurrence),
        result matches Ok((file, start, end)) ==> file == occurrence.file && start
            == occurrence.normalized_start && end == occurrence.normalized_start + occurrence.normalized_len,
        result matches Err(e) ==> (occurrence.file >= corpus.files@.len() ==> e == (BaselineError::InvalidFile {
            file: occurrence.file,
        })),
        result matches Err(e) ==> (occurrence.file < corpus.files@.len() ==> e == (BaselineError::InvalidOccurrenceRange {
            path: corpus.files@[occurrence.file as int].path,
            start: occurrence.normalized_start,
            length: occurrence.normalized_len,
        })),
{
    if occurrence.file as usize >= corpus.files.len() {
        return Err(BaselineError::InvalidFile { file: occurrence.file });
    }
    let file = &corpus.files[occurrence.file as usize];
    let start = occurrence.normalized_start as usize;
    let length = occurrence.normalized_len as usize;
    if occurrence.normalized_len != group.normalized_len || start > file.lines.len() || length
        > file.lines.len() - start || length == 0 {
        return Err(
            BaselineError::InvalidOccurrenceRange {
                path: file.path.clone(),
                start: occurrence.normalized_start,
                length: occurrence.normalized_len,
            },
        );
    }
    Ok((occurrence.file as usize, start, start + length))
}

pub(crate) fn push_be32(message: &mut Vec<u8>, v: u32)
    ensures
        final(message)@ == old(message)@ + be32(v),
{
    message.push((v / 16777216) as u8);
    message.push(((v / 65536) % 256) as u8);
    message.push(((v / 256) % 256) as u8);
    message.push((v % 256) as u8);
    proof {
        assert(final(message)@ =~= old(message)@ + be32(v));
    }
}

/// All lines `start..end` of `file` have valid byte ranges.
pub open spec fn lines_valid(file: PreparedFile, start: int, end: int) -> bool {
    forall|i: int| start <= i < end ==> #[trigger] line_range_valid(file, i)
}

/// `b` records no more paths than some group of `groups` has occurrences.
pub open spec fn no_more_entries(groups: Seq<DuplicateGroup>, b: BaselineGroup) -> bool {
    exists|j: int| 0 <= j < groups.len() && b.occurrences@.len() <= (#[trigger] groups[j]).occurrences@.len()
}

/// The stable identity of one exact normalized duplicate block: a SHA-256
/// digest of a domain tag, the group's effective line count, and the
/// lines of its first occurrence. Paths, physical source lines and the
/// other occurrences do not enter it.
pub fn group_fingerprint(corpus: &Corpus, group: &DuplicateGroup) -> (result: Result<String, BaselineError>)
    ensures
        result is Ok <==> group.occurrences@.len() > 0 && occurrence_valid(
            *corpus,
            *group,
            group.occurrences@[0],
        ) && lines_valid(
            corpus.files@[group.occurrences@[0].file as int],
            group.occurrences@[0].normalized_start as int,
            group.occurrences@[0].normalized_start + group.occurrences@[0].normalized_len,
        ),
        result matches Ok(fingerprint) ==> fingerprint@ == fingerprint_text(
            corpus.files@[group.occurrences@[0].file as int],
            group.effective_lines,
            group.occurrences@[0].normalized_start as int,
            group.occurrences@[0].normalized_start + group.occurrences@[0].normalized_len,
        ),
        group.occurrences@.len() == 0 ==> result == Err::<String, BaselineError>(BaselineError::EmptyGroup),
{
    if group.occurrences.len() == 0 {
        return Err(BaselineError::EmptyGroup);
    }
    let occurrence = group.occurrences[0];
    let (file_index, start, end) = match occurrence_lines(corpus, group, occurrence) {
        Ok(lines) => lines,
        Err(error) => {
            return Err(error);
        },
    };
    let file = &corpus.files[file_index];
    let domain: [u8; 23] = [
        97u8, 114, 105, 100, 45, 98, 97, 115, 101, 108, 105, 110, 101, 45, 103, 114, 111, 117, 112,
        45, 118, 49, 0,
    ];
    let mut message: Vec<u8> = Vec::new();
    let mut d: usize = 0;
    while d < 23
        invariant
            d <= 23,
            domain@ == fingerprint_domain(),
            message@ == fingerprint_domain().take(d as int),
        decreases 23 - d,
    {
        message.push(domain[d]);
        proof {
            assert(fingerprint_domain().take(d + 1) =~= fingerprint_domain().take(d as int).push(domain@[d as int]));
        }
        d = d + 1;
    }
    proof {
        assert(fingerprint_domain().take(23) =~= fingerprint_domain());
    }
    push_be32(&mut message, group.effective_lines);
    if let Err(bad) = push_lines_message(&mut message, file, start, end) {
        return Err(
            BaselineError::InvalidLineRange {
                path: file.path.clone(),
                start: file.lines[bad].text_range.start,
                end: file.lines[bad].text_range.end,
            },
        );
    }
    let digest = sha256(message.as_slice());
    proof {
        reveal_strlit("sha256:");
        assert("sha256:"@ =~= seq!['s', 'h', 'a', '2', '5', '6', ':']);
    }
    let fingerprint = hex_text("sha256:", &digest);
    Ok(fingerprint)
}

/// Appends lines `start..end` of `file` as `lines_message` lays them out;
/// on a line whose byte range is not valid, stops and gives its index.
pub(crate) fn push_lines_message(message: &mut Vec<u8>, file: &PreparedFile, start: usize, end: usize) -> (result:
    Result<(), usize>)
    requires
        start <= end <= file.lines@.len(),
    ensures
        result is Ok <==> lines_valid(*file, start as int, end as int),
        result is Ok ==> final(message)@ == old(message)@ + lines_message(*file, start as int, end as int),
        result matches Err(bad) ==> start <= bad < end && !line_range_valid(*file, bad as int),
{
    let normalized = file.normalized.as_str();
    let bytes = normalized.as_bytes();
    let ghost head = message@;
    let mut i: usize = start;
    while i < end
        invariant
            start <= i <= end <= file.lines@.len(),
            normalized@ == file.normalized@,
            bytes@ == str_bytes(file.normalized@),
            message@ == head + lines_message(*file, start as int, i as int),
            lines_valid(*file, start as int, i as int),
        decreases end - i,
    {
        let range_start = file.lines[i].text_range.start;
        let range_end = file.lines[i].text_range.end;
        if range_start > range_end || range_end as usize > bytes.len() || !normalized.is_char_boundary(
            range_start as usize,
        ) || !normalized.is_char_boundary(range_end as usize) {
            proof {
                assert(!line_range_valid(*file, i as int));
            }
            return Err(i);
        }
        let length = range_end - range_start;
        push_be32(message, length);
        let ghost before = message@;
        let mut b: usize = range_start as usize;
        while b < range_end as usize
            invariant
                range_start <= b <= range_end <= bytes@.len(),
                message@ == before + bytes@.subrange(range_start as int, b as int),
            decreases range_end - b,
        {
            message.push(bytes[b]);
            proof {
                assert(bytes@.subrange(range_start as int, b + 1) =~= bytes@.subrange(range_start as int, b as int).push(bytes@[b as int]));
            }
            b = b + 1;
        }
        proof {
            assert(line_bytes(*file, i as int) == bytes@.subrange(range_start as int, range_end as int));
            assert(line_bytes(*file, i as int).len() as u32 == length);
            assert(message@ =~= head + lines_message(*file, start as int, i + 1));
            assert(line_range_valid(*file, i as int));
        }
        i = i + 1;
    }
    Ok(())
}

/// `prefix` followed by `digest` in lowercase hexadecimal.
pub(crate) fn hex_text(prefix: &str, digest: &Vec<u8>) -> (text: String)
    ensures
        text@ == prefix@ + hex_lower(digest@),
{
    let mut text = prefix.to_owned();
    let mut k: usize = 0;
    while k < digest.len()
        invariant
            k <= digest@.len(),
            text@ == prefix@ + hex_lower(digest@.take(k as int)),
        decreases digest@.len() - k,
    {
        let byte = digest[k];
        push_char(&mut text, lower_hex_digit(byte / 16));
        push_char(&mut text, lower_hex_digit(byte % 16));
        proof {
            assert(digest@.take(k + 1).drop_last() =~= digest@.take(k as int));
            assert(text@ =~= prefix@ + hex_lower(digest@.take(k + 1)));
        }
        k = k + 1;
    }
    proof {
        assert(digest@.take(k as int) =~= digest@);
    }
    text
}

fn lower_hex_digit(v: u8) -> (c: char)
    requires
        v < 16,
    ensures
        c == lower_hex(v as int),
{
    if v < 10 {
        (48u8 + v) as char
    } else {
        (87u8 + v) as char
    }
}

// ----------------------------------------------------------------------
// Paths and counts.
/// The project-relative form of `path` that baselines record, if it has
/// one: the components after the root's, all named entries, joined with
/// `/`, not empty.
pub open spec fn baseline_relative(path: Seq<char>, root: Seq<char>) -> Option<Seq<char>> {
    match relative_result(path, root) {
        Some(rel) => if join_slash(rel).len() > 0 && forall|k: int| 0 <= k < rel.len() ==> normal_component(#[trigger] rel[k]) {
            Some(join_slash(rel))
        } else {
            None
        },
        None => None,
    }
}

/// The project-relative path that a baseline records for `path`.
pub fn baseline_path(path: &str, project_root: &str) -> (result: Result<String, BaselineError>)
    ensures
        result is Ok <==> baseline_relative(path@, project_root@) is Some,
        result matches Ok(s) ==> s@ == baseline_relative(path@, project_root@)->0,
        result matches Err(e) ==> (relative_result(path@, project_root@) is None ==> e
            == BaselineError::PathOutsideProjectRoot { path: e->PathOutsideProjectRoot_path, root: e->PathOutsideProjectRoot_root })
            && (relative_result(path@, project_root@) is Some ==> e is InvalidProjectRelativePath),
{
    match relative_join(path, project_root) {
        Ok(joined) => {
            if joined.as_str().unicode_len() == 0 {
                return Err(BaselineError::InvalidProjectRelativePath { path: path.to_owned() });
            }
            Ok(joined)
        },
        Err(ProjectPathError::OutsideRoot { .. }) => Err(
            BaselineError::PathOutsideProjectRoot { path: path.to_owned(), root: project_root.to_owned() },
        ),
        Err(_) => Err(BaselineError::InvalidProjectRelativePath { path: path.to_owned() }),
    }
}

/// Number of entries of `paths` equal to `p`.
pub open spec fn count_in(paths: Seq<Seq<char>>, p: Seq<char>) -> nat
    decreases paths.len(),
{
    if paths.len() == 0 {
        0
    } else {
        count_in(paths.drop_last(), p) + if paths.last() == p {
            1nat
        } else {
            0nat
        }
    }
}

proof fn lemma_count_in_bound(paths: Seq<Seq<char>>, p: Seq<char>)
    ensures
        count_in(paths, p) <= paths.len(),
    decreases paths.len(),
{
    if paths.len() > 0 {
        lemma_count_in_bound(paths.drop_last(), p);
    }
}

/// Adds one copy at `path` to path-sorted `counts`.
fn add_path(counts: &mut Vec<BaselinePathCount>, path: String) -> (result: Result<(), BaselineError>)
    requires
        counts_sorted(old(counts)@),
        forall|k: int| 0 <= k < old(counts)@.len() ==> (#[trigger] old(counts)@[k]).count > 0,
    ensures
        result is Ok ==> counts_sorted(final(counts)@),
        result is Ok ==> forall|k: int| 0 <= k < final(counts)@.len() ==> (#[trigger] final(counts)@[k]).count > 0,
        result is Ok ==> forall|p: Seq<char>| #[trigger] entry_count(final(counts)@, p) == entry_count(old(counts)@, p) + if p == path@ {
            1int
        } else {
            0int
        },
        result is Err ==> exists|k: int| 0 <= k < old(counts)@.len() && (#[trigger] old(counts)@[k]).path@ == path@ && old(counts)@[k].count == u32::MAX,
        result is Ok ==> final(counts)@.len() <= old(counts)@.len() + 1,
{
    let key = path.as_str().as_bytes();
    let mut j: usize = 0;
    while j < counts.len() && compare_bytes(counts[j].path.as_str().as_bytes(), key) == Comparison::Less
        invariant
            j <= counts@.len(),
            key@ == text_bytes(path@),
            forall|t: int| 0 <= t < j ==> bytes_lt(text_bytes(#[trigger] counts@[t].path@), text_bytes(path@)),
        decreases counts@.len() - j,
    {
        j = j + 1;
    }
    if j < counts.len() && counts[j].path == path {
        if counts[j].count == u32::MAX {
            return Err(BaselineError::OccurrenceCountOverflow { path });
        }
        let ghost before = counts@;
        let count = counts[j].count + 1;
        let entry_path = counts[j].path.clone();
        counts.set(j, BaselinePathCount { path: entry_path, count });
        proof {
            assert forall|k: int| 0 <= k < counts@.len() implies (#[trigger] counts@[k]).count > 0 by {
                if k != j {
                    assert(counts@[k] == before[k]);
                }
            }
            lemma_sorted_unique(before, j as int);
            assert forall|a: int, b: int| 0 <= a < b < counts@.len() implies bytes_lt(
                text_bytes((#[trigger] counts@[a]).path@),
                text_bytes((#[trigger] counts@[b]).path@),
            ) by {
                assert(counts@[a].path@ == before[a].path@ && counts@[b].path@ == before[b].path@);
            }
            assert forall|p: Seq<char>| #[trigger] entry_count(counts@, p) == entry_count(before, p) + if p == path@ {
                1int
            } else {
                0int
            } by {
                lemma_entry_count_update(before, j as int, count, p);
            }
        }
        return Ok(());
    }
    let ghost before = counts@;
    proof {
        if j < counts@.len() {
            crate::order::lemma_bytes_lt_total(text_bytes(counts@[j as int].path@), text_bytes(path@));
            if text_bytes(counts@[j as int].path@) == text_bytes(path@) {
                vstd::utf8::encode_utf8_decode_utf8(counts@[j as int].path@);
                vstd::utf8::encode_utf8_decode_utf8(path@);
            }
        }
    }
    counts.insert(j, BaselinePathCount { path, count: 1 });
    proof {
        assert forall|k: int| 0 <= k < counts@.len() implies (#[trigger] counts@[k]).count > 0 by {
            if k < j {
                assert(counts@[k] == before[k]);
            } else if k > j {
                assert(counts@[k] == before[k - 1]);
            }
        }
        assert(counts@ == before.insert(j as int, counts@[j as int]));
        assert forall|a: int, b: int| 0 <= a < b < counts@.len() implies bytes_lt(
            text_bytes((#[trigger] counts@[a]).path@),
            text_bytes((#[trigger] counts@[b]).path@),
        ) by {
            if a == j {
                assert(counts@[b] == before[b - 1]);
                if b - 1 > j {
                    assert(bytes_lt(text_bytes(before[j as int].path@), text_bytes(before[b - 1].path@)));
                    crate::order::lemma_bytes_lt_transitive(
                        text_bytes(path@),
                        text_bytes(before[j as int].path@),
                        text_bytes(before[b - 1].path@),
                    );
                }
            } else if b == j {
                assert(counts@[a] == before[a]);
            } else {
                let a0 = if a < j { a } else { a - 1 };
                let b0 = if b < j { b } else { b - 1 };
                assert(counts@[a] == before[a0] && counts@[b] == before[b0]);
                assert(bytes_lt(text_bytes(before[a0].path@), text_bytes(before[b0].path@)));
            }
        }
        assert forall|p: Seq<char>| #[trigger] entry_count(counts@, p) == entry_count(before, p) + if p == path@ {
            1int
        } else {
            0int
        } by {
            lemma_entry_count_insert(before, j as int, counts@[j as int], p);
            if p == path@ {
                assert forall|t: int| 0 <= t < before.len() implies (#[trigger] before[t]).path@ != p by {
                    if t < j {
                        assert(bytes_lt(text_bytes(before[t].path@), text_bytes(path@)));
                        lemma_bytes_lt_irreflexive(text_bytes(path@));
                    } else {
                        if t > j {
                            assert(bytes_lt(text_bytes(before[j as int].path@), text_bytes(before[t].path@)));
                            crate::order::lemma_bytes_lt_transitive(
                                text_bytes(path@),
                                text_bytes(before[j as int].path@),
                                text_bytes(before[t].path@),
                            );
                        }
                        if before[t].path@ == p {
                            lemma_bytes_lt_irreflexive(text_bytes(path@));
                        }
                    }
                }
                lemma_entry_count_absent(before, p);
            }
        }
    }
    Ok(())
}

/// Copies recorded for `p`: the count of the entry naming it, 0 when none
/// does (entries name distinct paths).
pub open spec fn entry_count(counts: Seq<BaselinePathCount>, p: Seq<char>) -> int
    decreases counts.len(),
{
    if counts.len() == 0 {
        0
    } else {
        entry_count(counts.drop_last(), p) + if counts.last().path@ == p {
            counts.last().count as int
        } else {
            0int
        }
    }
}

pub proof fn lemma_entry_count_absent(counts: Seq<BaselinePathCount>, p: Seq<char>)
    requires
        forall|t: int| 0 <= t < counts.len() ==> (#[trigger] counts[t]).path@ != p,
    ensures
        entry_count(counts, p) == 0,
    decreases counts.len(),
{
    if counts.len() > 0 {
        lemma_entry_count_absent(counts.drop_last(), p);
    }
}

proof fn lemma_entry_count_insert(counts: Seq<BaselinePathCount>, j: int, x: BaselinePathCount, p: Seq<char>)
    requires
        0 <= j <= counts.len(),
    ensures
        entry_count(counts.insert(j, x), p) == entry_count(counts, p) + if x.path@ == p {
            x.count as int
        } else {
            0int
        },
    decreases counts.len(),
{
    if j == counts.len() {
        assert(counts.insert(j, x).drop_last() =~= counts);
    } else {
        assert(counts.insert(j, x).drop_last() =~= counts.drop_last().insert(j, x));
        lemma_entry_count_insert(counts.drop_last(), j, x, p);
    }
}

proof fn lemma_entry_count_update(counts: Seq<BaselinePathCount>, j: int, count: u32, p: Seq<char>)
    requires
        0 <= j < counts.len(),
        counts[j].count + 1 == count,
    ensures
        entry_count(counts.update(j, BaselinePathCount { path: counts[j].path, count }), p) == entry_count(counts, p)
            + if counts[j].path@ == p {
            1int
        } else {
            0int
        },
    decreases counts.len(),
{
    if j == counts.len() - 1 {
        assert(counts.update(j, BaselinePathCount { path: counts[j].path, count }).drop_last() =~= counts.drop_last());
    } else {
        assert(counts.update(j, BaselinePathCount { path: counts[j].path, count }).drop_last() =~= counts.drop_last().update(
            j,
            BaselinePathCount { path: counts[j].path, count },
        ));
        lemma_entry_count_update(counts.drop_last(), j, count, p);
    }
}

/// In path-sorted entries no other entry names `counts[j]`'s path.
pub proof fn lemma_sorted_unique(counts: Seq<BaselinePathCount>, j: int)
    requires
        counts_sorted(counts),
        0 <= j < counts.len(),
    ensures
        forall|t: int| 0 <= t < counts.len() && t != j ==> (#[trigger] counts[t]).path@ != counts[j].path@,
{
    assert forall|t: int| 0 <= t < counts.len() && t != j implies (#[trigger] counts[t]).path@ != counts[j].path@ by {
        if t < j {
            assert(bytes_lt(text_bytes(counts[t].path@), text_bytes(counts[j].path@)));
        } else {
            assert(bytes_lt(text_bytes(counts[j].path@), text_bytes(counts[t].path@)));
        }
        if counts[t].path@ == counts[j].path@ {
            lemma_bytes_lt_irreflexive(text_bytes(counts[j].path@));
        }
    }
}

/// Entries naming distinct paths record at most one count for each.
proof fn lemma_entry_count_bound(counts: Seq<BaselinePathCount>, p: Seq<char>)
    requires
        counts_sorted(counts),
    ensures
        entry_count(counts, p) <= u32::MAX,
        entry_count(counts, p) >= 0,
        forall|k: int| 0 <= k < counts.len() && (#[trigger] counts[k]).path@ == p ==> entry_count(counts, p) == counts[k].count,
    decreases counts.len(),
{
    if counts.len() > 0 {
        let rest = counts.drop_last();
        assert(counts_sorted(rest)) by {
            assert forall|a: int, b: int| 0 <= a < b < rest.len() implies bytes_lt(
                text_bytes((#[trigger] rest[a]).path@),
                text_bytes((#[trigger] rest[b]).path@),
            ) by {
                assert(rest[a] == counts[a] && rest[b] == counts[b]);
            }
        }
        lemma_entry_count_bound(rest, p);
        if counts.last().path@ == p {
            lemma_sorted_unique(counts, counts.len() - 1);
            assert forall|t: int| 0 <= t < rest.len() implies (#[trigger] rest[t]).path@ != p by {
                assert(rest[t] == counts[t]);
            }
            lemma_entry_count_absent(rest, p);
        }
        assert forall|k: int| 0 <= k < counts.len() && (#[trigger] counts[k]).path@ == p implies entry_count(counts, p) == counts[k].count by {
            if k < counts.len() - 1 {
                assert(rest[k] == counts[k]);
                lemma_sorted_unique(counts, k);
                assert(counts.last().path@ != p);
            }
        }
    }
}

proof fn lemma_count_in_take(paths: Seq<Seq<char>>, i: int, p: Seq<char>)
    requires
        0 <= i < paths.len(),
    ensures
        count_in(paths.take(i + 1), p) == count_in(paths.take(i), p) + if paths[i] == p {
            1nat
        } else {
            0nat
        },
{
    assert(paths.take(i + 1).drop_last() =~= paths.take(i));
}

proof fn lemma_count_in_prefix(paths: Seq<Seq<char>>, i: int, p: Seq<char>)
    requires
        0 <= i <= paths.len(),
    ensures
        count_in(paths.take(i), p) <= count_in(paths, p),
    decreases paths.len() - i,
{
    if i < paths.len() {
        lemma_count_in_prefix(paths, i + 1, p);
        lemma_count_in_take(paths, i, p);
    } else {
        assert(paths.take(i) =~= paths);
    }
}

/// The path each occurrence of `group` is recorded under.
pub open spec fn occurrence_paths(corpus: Corpus, group: DuplicateGroup, root: Seq<char>) -> Seq<Seq<char>> {
    group.occurrences@.map_values(
        |o: Occurrence| baseline_relative(corpus.files@[o.file as int].path@, root)->0,
    )
}

/// Every occurrence of `group` is valid and lies in a recordable path.
pub open spec fn occurrences_recordable(corpus: Corpus, group: DuplicateGroup, root: Seq<char>) -> bool {
    forall|i: int|
        0 <= i < group.occurrences@.len() ==> occurrence_valid(corpus, group, #[trigger] group.occurrences@[i])
            && baseline_relative(corpus.files@[group.occurrences@[i].file as int].path@, root) is Some
}

/// The paths of `group`'s occurrences with the number of copies in each,
/// in path order.
pub fn group_path_counts(corpus: &Corpus, group: &DuplicateGroup, project_root: &str) -> (result: Result<
    Vec<BaselinePathCount>,
    BaselineError,
>)
    ensures
        result is Ok <==> group.occurrences@.len() > 0 && occurrences_recordable(*corpus, *group, project_root@)
            && forall|p: Seq<char>| #[trigger] count_in(occurrence_paths(*corpus, *group, project_root@), p) <= u32::MAX,
        result matches Ok(counts) ==> counts_sorted(counts@) && (forall|k: int|
            0 <= k < counts@.len() ==> (#[trigger] counts@[k]).count > 0) && forall|p: Seq<char>|
            #[trigger] entry_count(counts@, p) == count_in(occurrence_paths(*corpus, *group, project_root@), p),
        result matches Ok(counts) ==> counts@.len() <= group.occurrences@.len(),
        group.occurrences@.len() == 0 ==> result == Err::<Vec<BaselinePathCount>, BaselineError>(BaselineError::EmptyGroup),
{
    if group.occurrences.len() == 0 {
        return Err(BaselineError::EmptyGroup);
    }
    let ghost paths = occurrence_paths(*corpus, *group, project_root@);
    let mut counts: Vec<BaselinePathCount> = Vec::new();
    let mut i: usize = 0;
    while i < group.occurrences.len()
        invariant
            i <= group.occurrences@.len(),
            paths == occurrence_paths(*corpus, *group, project_root@),
            paths.len() == group.occurrences@.len(),
            counts_sorted(counts@),
            forall|k: int| 0 <= k < counts@.len() ==> (#[trigger] counts@[k]).count > 0,
            forall|t: int|
                0 <= t < i ==> occurrence_valid(*corpus, *group, #[trigger] group.occurrences@[t])
                    && baseline_relative(corpus.files@[group.occurrences@[t].file as int].path@, project_root@)
                    is Some,
            forall|p: Seq<char>| #[trigger] entry_count(counts@, p) == count_in(paths.take(i as int), p),
            counts@.len() <= i,
        decreases group.occurrences@.len() - i,
    {
        let occurrence = group.occurrences[i];
        let (file_index, _, _) = match occurrence_lines(corpus, group, occurrence) {
            Ok(lines) => lines,
            Err(error) => {
                return Err(error);
            },
        };
        let path = match baseline_path(corpus.files[file_index].path.as_str(), project_root) {
            Ok(path) => path,
            Err(error) => {
                return Err(error);
            },
        };
        let ghost before = counts@;
        proof {
            assert(paths[i as int] == path@);
        }
        match add_path(&mut counts, path) {
            Ok(()) => {},
            Err(error) => {
                proof {
                    let k = choose|k: int| 0 <= k < before.len() && (#[trigger] before[k]).path@ == paths[i as int]
                        && before[k].count == u32::MAX;
                    lemma_entry_count_bound(before, paths[i as int]);
                    lemma_count_in_take(paths, i as int, paths[i as int]);
                    lemma_count_in_prefix(paths, i + 1, paths[i as int]);
                }
                return Err(error);
            },
        }
        proof {
            assert forall|p: Seq<char>| #[trigger] entry_count(counts@, p) == count_in(paths.take(i + 1), p) by {
                lemma_count_in_take(paths, i as int, p);
            }
        }
        i = i + 1;
    }
    proof {
        assert(paths.take(i as int) =~= paths);
        assert forall|p: Seq<char>| #[trigger] count_in(paths, p) <= u32::MAX by {
            lemma_entry_count_bound(counts@, p);
        }
    }
    Ok(counts)
}

/// `group_fingerprint` succeeds on `g`.
pub open spec fn fingerprint_ok(corpus: Corpus, g: DuplicateGroup) -> bool {
    let first = g.occurrences@[0];
    &&& g.occurrences@.len() > 0
    &&& occurrence_valid(corpus, g, first)
    &&& lines_valid(
        corpus.files@[first.file as int],
        first.normalized_start as int,
        first.normalized_start + first.normalized_len,
    )
}

/// The fingerprint of `g`.
pub open spec fn group_fingerprint_text(corpus: Corpus, g: DuplicateGroup) -> Seq<char> {
    let first = g.occurrences@[0];
    fingerprint_text(
        corpus.files@[first.file as int],
        g.effective_lines,
        first.normalized_start as int,
        first.normalized_start + first.normalized_len,
    )
}

/// `group_path_counts` succeeds on `g`.
pub open spec fn counts_ok(corpus: Corpus, g: DuplicateGroup, root: Seq<char>) -> bool {
    &&& g.occurrences@.len() > 0
    &&& occurrences_recordable(corpus, g, root)
    &&& forall|p: Seq<char>| #[trigger] count_in(occurrence_paths(corpus, g, root), p) <= u32::MAX
}

/// `b` records detected group `g`: its fingerprint, its effective line
/// count, and the copies of it in each path.
pub open spec fn records_group(corpus: Corpus, g: DuplicateGroup, root: Seq<char>, b: BaselineGroup) -> bool {
    &&& b.fingerprint@ == group_fingerprint_text(corpus, g)
    &&& b.lines == g.effective_lines
    &&& counts_sorted(b.occurrences@)
    &&& forall|k: int| 0 <= k < b.occurrences@.len() ==> (#[trigger] b.occurrences@[k]).count > 0
    &&& forall|p: Seq<char>| #[trigger] entry_count(b.occurrences@, p) == count_in(occurrence_paths(corpus, g, root), p)
}

proof fn lemma_entry_count_copy(a: Seq<BaselinePathCount>, b: Seq<BaselinePathCount>, p: Seq<char>)
    requires
        same_path_counts(a, b),
    ensures
        entry_count(a, p) == entry_count(b, p),
    decreases a.len(),
{
    if a.len() > 0 {
        assert(same_path_counts(a.drop_last(), b.drop_last())) by {
            assert forall|k: int| 0 <= k < a.drop_last().len() implies same_path_count(
                #[trigger] a.drop_last()[k],
                b.drop_last()[k],
            ) by {
                assert(same_path_count(a[k], b[k]));
            }
        }
        lemma_entry_count_copy(a.drop_last(), b.drop_last(), p);
        assert(same_path_count(a[a.len() - 1], b[b.len() - 1]));
    }
}

proof fn lemma_records_copy(corpus: Corpus, g: DuplicateGroup, root: Seq<char>, a: BaselineGroup, b: BaselineGroup)
    requires
        records_group(corpus, g, root, a),
        same_baseline_group(b, a),
    ensures
        records_group(corpus, g, root, b),
{
    lemma_same_path_counts_symmetric(b.occurrences@, a.occurrences@);
    lemma_counts_sorted_copy(a.occurrences@, b.occurrences@);
    assert forall|k: int| 0 <= k < b.occurrences@.len() implies (#[trigger] b.occurrences@[k]).count > 0 by {
        assert(same_path_count(b.occurrences@[k], a.occurrences@[k]));
    }
    assert forall|p: Seq<char>| #[trigger] entry_count(b.occurrences@, p) == count_in(occurrence_paths(corpus, g, root), p) by {
        lemma_entry_count_copy(a.occurrences@, b.occurrences@, p);
    }
}

/// `b` records one of `groups`.
pub open spec fn records_some(corpus: Corpus, groups: Seq<DuplicateGroup>, root: Seq<char>, b: BaselineGroup) -> bool {
    exists|i: int| 0 <= i < groups.len() && records_group(corpus, #[trigger] groups[i], root, b)
}

/// One of `recorded` records `g`.
pub open spec fn recorded_by_some(corpus: Corpus, g: DuplicateGroup, root: Seq<char>, recorded: Seq<BaselineGroup>) -> bool {
    exists|k: int| 0 <= k < recorded.len() && records_group(corpus, g, root, #[trigger] recorded[k])
}

/// Two detected groups have the same fingerprint.
pub open spec fn repeats_group_fingerprint(corpus: Corpus, groups: Seq<DuplicateGroup>) -> bool {
    exists|a: int, b: int|
        0 <= a < groups.len() && 0 <= b < groups.len() && a != b && group_fingerprint_text(
            corpus,
            #[trigger] groups[a],
        ) == group_fingerprint_text(corpus, #[trigger] groups[b])
}

/// Copies counted by all entries.
pub open spec fn sum_counts(counts: Seq<BaselinePathCount>) -> int
    decreases counts.len(),
{
    if counts.len() == 0 {
        0
    } else {
        sum_counts(counts.drop_last()) + counts.last().count
    }
}

/// No two entries name the same path.
pub open spec fn distinct_entry_paths(counts: Seq<BaselinePathCount>) -> bool {
    forall|a: int, b: int|
        0 <= a < counts.len() && 0 <= b < counts.len() && a != b ==> (#[trigger] counts[a]).path@ != (
        #[trigger] counts[b]).path@
}

proof fn lemma_update_counts(counts: Seq<BaselinePathCount>, t: int, x: BaselinePathCount, p: Seq<char>)
    requires
        0 <= t < counts.len(),
    ensures
        entry_count(counts.update(t, x), p) == entry_count(counts, p) - (if counts[t].path@ == p {
            counts[t].count as int
        } else {
            0int
        }) + (if x.path@ == p {
            x.count as int
        } else {
            0int
        }),
        sum_counts(counts.update(t, x)) == sum_counts(counts) - counts[t].count + x.count,
    decreases counts.len(),
{
    let u = counts.update(t, x);
    let n = counts.len() - 1;
    if t == n {
        assert(u.drop_last() =~= counts.drop_last());
    } else {
        assert(u.drop_last() =~= counts.drop_last().update(t, x));
        lemma_update_counts(counts.drop_last(), t, x, p);
    }
}

proof fn lemma_distinct_entry_count(counts: Seq<BaselinePathCount>, t: int)
    requires
        distinct_entry_paths(counts),
        0 <= t < counts.len(),
    ensures
        entry_count(counts, counts[t].path@) == counts[t].count,
    decreases counts.len(),
{
    let n = counts.len() - 1;
    let init = counts.drop_last();
    if t == n {
        assert forall|k: int| 0 <= k < init.len() implies (#[trigger] init[k]).path@ != counts[t].path@ by {
            assert(init[k] == counts[k]);
        }
        lemma_entry_count_absent(init, counts[t].path@);
    } else {
        assert(counts[n].path@ != counts[t].path@);
        assert forall|a: int, b: int|
            0 <= a < init.len() && 0 <= b < init.len() && a != b implies (#[trigger] init[a]).path@ != (
            #[trigger] init[b]).path@ by {
            assert(init[a] == counts[a] && init[b] == counts[b]);
        }
        assert(init[t] == counts[t]);
        lemma_distinct_entry_count(init, t);
    }
}

proof fn lemma_sum_of_zero_counts(counts: Seq<BaselinePathCount>)
    requires
        forall|k: int| 0 <= k < counts.len() ==> (#[trigger] counts[k]).count == 0,
    ensures
        sum_counts(counts) == 0,
    decreases counts.len(),
{
    if counts.len() > 0 {
        let init = counts.drop_last();
        assert forall|k: int| 0 <= k < init.len() implies (#[trigger] init[k]).count == 0 by {
            assert(init[k] == counts[k]);
        }
        lemma_sum_of_zero_counts(init);
        assert(counts[counts.len() - 1].count == 0);
    }
}

/// Entries with distinct paths that count each path as often as `paths`
/// lists it add up to the length of `paths`.
proof fn lemma_counts_add_up(counts: Seq<BaselinePathCount>, paths: Seq<Seq<char>>)
    requires
        distinct_entry_paths(counts),
        forall|p: Seq<char>| #[trigger] entry_count(counts, p) == count_in(paths, p),
    ensures
        sum_counts(counts) == paths.len(),
    decreases paths.len(),
{
    if paths.len() == 0 {
        assert forall|k: int| 0 <= k < counts.len() implies (#[trigger] counts[k]).count == 0 by {
            lemma_distinct_entry_count(counts, k);
            assert(entry_count(counts, counts[k].path@) == count_in(paths, counts[k].path@));
        }
        lemma_sum_of_zero_counts(counts);
    } else {
        let q = paths.last();
        let rest = paths.drop_last();
        assert(entry_count(counts, q) == count_in(paths, q));
        lemma_entry_count_named(counts, q);
        let t = choose|t: int| 0 <= t < counts.len() && (#[trigger] counts[t]).path@ == q;
        lemma_distinct_entry_count(counts, t);
        let x = BaselinePathCount { path: counts[t].path, count: (counts[t].count - 1) as u32 };
        let u = counts.update(t, x);
        assert forall|p: Seq<char>| #[trigger] entry_count(u, p) == count_in(rest, p) by {
            lemma_update_counts(counts, t, x, p);
            assert(entry_count(counts, p) == count_in(paths, p));
        }
        lemma_update_counts(counts, t, x, q);
        assert forall|a: int, b: int|
            0 <= a < u.len() && 0 <= b < u.len() && a != b implies (#[trigger] u[a]).path@ != (#[trigger] u[b]).path@ by {
            assert(counts[a].path@ != counts[b].path@);
        }
        lemma_counts_add_up(u, rest);
    }
}

/// The entry recorded for a detected group counts each of its occurrences
/// once: its counts add up to the number of occurrences.
pub proof fn law_entry_counts_every_occurrence(corpus: Corpus, g: DuplicateGroup, root: Seq<char>, b: BaselineGroup)
    requires
        records_group(corpus, g, root, b),
    ensures
        sum_counts(b.occurrences@) == g.occurrences@.len(),
{
    let occ = b.occurrences@;
    assert forall|x: int, y: int| 0 <= x < occ.len() && 0 <= y < occ.len() && x != y implies (#[trigger] occ[x]).path@
        != (#[trigger] occ[y]).path@ by {
        lemma_sorted_unique(occ, y);
    }
    lemma_counts_add_up(occ, occurrence_paths(corpus, g, root));
}

/// The last entry of path-sorted entries holds all copies recorded for its path.
proof fn lemma_last_entry_count(counts: Seq<BaselinePathCount>)
    requires
        counts_sorted(counts),
        counts.len() > 0,
    ensures
        entry_count(counts, counts.last().path@) == counts.last().count,
        forall|q: Seq<char>|
            q != counts.last().path@ ==> #[trigger] entry_count(counts.drop_last(), q) == entry_count(counts, q),
        entry_count(counts.drop_last(), counts.last().path@) == 0,
{
    let n = counts.len() - 1;
    lemma_sorted_unique(counts, n);
    let init = counts.drop_last();
    assert forall|t: int| 0 <= t < init.len() implies (#[trigger] init[t]).path@ != counts[n].path@ by {
        assert(init[t] == counts[t]);
    }
    lemma_entry_count_absent(init, counts[n].path@);
}

/// A path some entry counts is named by an entry.
proof fn lemma_entry_count_named(counts: Seq<BaselinePathCount>, p: Seq<char>)
    requires
        entry_count(counts, p) != 0,
    ensures
        exists|t: int| 0 <= t < counts.len() && (#[trigger] counts[t]).path@ == p,
{
    if !(exists|t: int| 0 <= t < counts.len() && (#[trigger] counts[t]).path@ == p) {
        lemma_entry_count_absent(counts, p);
    }
}

/// Path-sorted entries with positive counts are fixed by how many copies
/// they record for each path.
proof fn lemma_entries_determined(a: Seq<BaselinePathCount>, b: Seq<BaselinePathCount>)
    requires
        counts_sorted(a),
        counts_sorted(b),
        forall|k: int| 0 <= k < a.len() ==> (#[trigger] a[k]).count > 0,
        forall|k: int| 0 <= k < b.len() ==> (#[trigger] b[k]).count > 0,
        forall|p: Seq<char>| #[trigger] entry_count(a, p) == entry_count(b, p),
    ensures
        same_path_counts(a, b),
    decreases a.len() + b.len(),
{
    if a.len() == 0 && b.len() > 0 {
        lemma_last_entry_count(b);
        assert(entry_count(a, b.last().path@) == 0);
    } else if b.len() == 0 && a.len() > 0 {
        lemma_last_entry_count(a);
        assert(entry_count(b, a.last().path@) == 0);
    } else if a.len() > 0 {
        let (na, nb) = (a.len() - 1, b.len() - 1);
        let (x, y) = (a[na], b[nb]);
        lemma_last_entry_count(a);
        lemma_last_entry_count(b);
        assert(entry_count(b, x.path@) == x.count);
        lemma_entry_count_named(b, x.path@);
        let j = choose|t: int| 0 <= t < b.len() && (#[trigger] b[t]).path@ == x.path@;
        assert(entry_count(a, y.path@) == y.count);
        lemma_entry_count_named(a, y.path@);
        let i = choose|t: int| 0 <= t < a.len() && (#[trigger] a[t]).path@ == y.path@;
        if j < nb && i < na {
            assert(bytes_lt(text_bytes(b[j].path@), text_bytes(b[nb].path@)));
            assert(bytes_lt(text_bytes(a[i].path@), text_bytes(a[na].path@)));
            lemma_bytes_lt_asymmetric(text_bytes(x.path@), text_bytes(y.path@));
        }
        assert(x.path@ == y.path@);
        assert(x.count == y.count);
        let (ia, ib) = (a.drop_last(), b.drop_last());
        assert forall|u: int, v: int| 0 <= u < v < ia.len() implies bytes_lt(
            text_bytes((#[trigger] ia[u]).path@),
            text_bytes((#[trigger] ia[v]).path@),
        ) by {
            assert(ia[u] == a[u] && ia[v] == a[v]);
        }
        assert forall|u: int, v: int| 0 <= u < v < ib.len() implies bytes_lt(
            text_bytes((#[trigger] ib[u]).path@),
            text_bytes((#[trigger] ib[v]).path@),
        ) by {
            assert(ib[u] == b[u] && ib[v] == b[v]);
        }
        assert forall|k: int| 0 <= k < ia.len() implies (#[trigger] ia[k]).count > 0 by {
            assert(ia[k] == a[k]);
        }
        assert forall|k: int| 0 <= k < ib.len() implies (#[trigger] ib[k]).count > 0 by {
            assert(ib[k] == b[k]);
        }
        assert forall|q: Seq<char>| #[trigger] entry_count(ia, q) == entry_count(ib, q) by {
            if q != x.path@ {
                assert(entry_count(ia, q) == entry_count(a, q));
                assert(entry_count(ib, q) == entry_count(b, q));
            }
        }
        lemma_entries_determined(ia, ib);
        assert forall|k: int| 0 <= k < a.len() implies same_path_count(#[trigger] a[k], b[k]) by {
            if k < na {
                assert(a[k] == ia[k] && b[k] == ib[k]);
            }
        }
    }
}

/// Two records of one detected group hold the same values.
proof fn lemma_record_determined(corpus: Corpus, g: DuplicateGroup, root: Seq<char>, a: BaselineGroup, b: BaselineGroup)
    requires
        records_group(corpus, g, root, a),
        records_group(corpus, g, root, b),
    ensures
        same_baseline_group(a, b),
{
    assert forall|p: Seq<char>| #[trigger] entry_count(a.occurrences@, p) == entry_count(b.occurrences@, p) by {
        assert(entry_count(a.occurrences@, p) == count_in(occurrence_paths(corpus, g, root), p));
        assert(entry_count(b.occurrences@, p) == count_in(occurrence_paths(corpus, g, root), p));
    }
    lemma_entries_determined(a.occurrences@, b.occurrences@);
}

proof fn lemma_same_baseline_group_facts(a: BaselineGroup, b: BaselineGroup, c: BaselineGroup)
    ensures
        same_baseline_group(a, b) ==> same_baseline_group(b, a),
        same_baseline_group(a, b) && same_baseline_group(b, c) ==> same_baseline_group(a, c),
{
    if same_baseline_group(a, b) {
        assert forall|k: int| 0 <= k < b.occurrences@.len() implies same_path_count(
            #[trigger] b.occurrences@[k],
            a.occurrences@[k],
        ) by {
            assert(same_path_count(a.occurrences@[k], b.occurrences@[k]));
        }
        if same_baseline_group(b, c) {
            assert forall|k: int| 0 <= k < a.occurrences@.len() implies same_path_count(
                #[trigger] a.occurrences@[k],
                c.occurrences@[k],
            ) by {
                assert(same_path_count(a.occurrences@[k], b.occurrences@[k]));
                assert(same_path_count(b.occurrences@[k], c.occurrences@[k]));
            }
        }
    }
}

/// `a` and `b` hold the same values.
#[verifier::opaque]
pub open spec fn same_values(a: BaselineGroup, b: BaselineGroup) -> bool {
    same_baseline_group(a, b)
}

proof fn lemma_same_values(a: BaselineGroup, b: BaselineGroup, c: BaselineGroup)
    ensures
        same_values(a, b) ==> same_values(b, a) && a.fingerprint@ == b.fingerprint@,
        same_values(a, b) && same_values(b, c) ==> same_values(a, c),
{
    reveal(same_values);
    lemma_same_baseline_group_facts(a, b, c);
}

/// The bytes fingerprints are ordered by.
#[verifier::opaque]
spec fn fingerprint_key(fp: Seq<char>) -> Seq<u8> {
    text_bytes(fp)
}

/// Groups strictly increasing by fingerprint key.
spec fn keys_ascending(a: Seq<BaselineGroup>) -> bool {
    forall|u: int, v: int|
        0 <= u < v < a.len() ==> bytes_lt(
            fingerprint_key((#[trigger] a[u]).fingerprint@),
            fingerprint_key((#[trigger] a[v]).fingerprint@),
        )
}

proof fn lemma_keys_ascending(a: Seq<BaselineGroup>)
    requires
        groups_sorted(a),
    ensures
        keys_ascending(a),
{
    reveal(fingerprint_key);
}

proof fn lemma_keys_ascending_drop_last(a: Seq<BaselineGroup>)
    requires
        keys_ascending(a),
        a.len() > 0,
    ensures
        keys_ascending(a.drop_last()),
{
    let ia = a.drop_last();
    assert forall|u: int, v: int| 0 <= u < v < ia.len() implies bytes_lt(
        fingerprint_key((#[trigger] ia[u]).fingerprint@),
        fingerprint_key((#[trigger] ia[v]).fingerprint@),
    ) by {
        assert(ia[u] == a[u] && ia[v] == a[v]);
    }
}

/// Some entry of `groups` holds the values of `g`.
pub open spec fn holds_values_of(groups: Seq<BaselineGroup>, g: BaselineGroup) -> bool {
    exists|m: int| 0 <= m < groups.len() && same_values(g, #[trigger] groups[m])
}

proof fn lemma_drop_last_holds(a: Seq<BaselineGroup>, b: Seq<BaselineGroup>)
    requires
        keys_ascending(a),
        a.len() > 0,
        b.len() > 0,
        forall|k: int| 0 <= k < a.len() ==> holds_values_of(b, #[trigger] a[k]),
        same_values(a.last(), b.last()),
    ensures
        forall|k: int| 0 <= k < a.drop_last().len() ==> holds_values_of(b.drop_last(), #[trigger] a.drop_last()[k]),
{
    let (ia, ib) = (a.drop_last(), b.drop_last());
    let (na, nb) = (a.len() - 1, b.len() - 1);
    assert forall|k: int| 0 <= k < ia.len() implies holds_values_of(ib, #[trigger] ia[k]) by {
        assert(ia[k] == a[k]);
        assert(holds_values_of(b, a[k]));
        let t = choose|t: int| 0 <= t < b.len() && same_values(a[k], #[trigger] b[t]);
        if t == nb {
            lemma_same_values(a[k], b[nb], a[na]);
            lemma_same_values(a[na], b[nb], a[na]);
            assert(bytes_lt(fingerprint_key(a[k].fingerprint@), fingerprint_key(a[na].fingerprint@)));
            lemma_bytes_lt_irreflexive(fingerprint_key(a[k].fingerprint@));
        }
        assert(ib[t] == b[t]);
    }
}

/// Fingerprint-sorted groups holding the same values as each other hold
/// them in the same order.
#[verifier::spinoff_prover]
#[verifier::rlimit(60)]
proof fn lemma_sorted_groups_determined(a: Seq<BaselineGroup>, b: Seq<BaselineGroup>)
    requires
        keys_ascending(a),
        keys_ascending(b),
        forall|k: int| 0 <= k < a.len() ==> holds_values_of(b, #[trigger] a[k]),
        forall|k: int| 0 <= k < b.len() ==> holds_values_of(a, #[trigger] b[k]),
    ensures
        a.len() == b.len(),
        forall|k: int| 0 <= k < a.len() ==> same_values(#[trigger] a[k], b[k]),
    decreases a.len() + b.len(),
{
    if a.len() == 0 && b.len() > 0 {
        assert(holds_values_of(a, b[0]));
    } else if b.len() == 0 && a.len() > 0 {
        assert(holds_values_of(b, a[0]));
    } else if a.len() > 0 {
        let (na, nb) = (a.len() - 1, b.len() - 1);
        let (x, y) = (a[na], b[nb]);
        assert(holds_values_of(b, x));
        let m = choose|m: int| 0 <= m < b.len() && same_values(x, #[trigger] b[m]);
        assert(holds_values_of(a, y));
        let i = choose|m: int| 0 <= m < a.len() && same_values(y, #[trigger] a[m]);
        lemma_same_values(x, b[m], x);
        lemma_same_values(y, a[i], y);
        if m < nb && i < na {
            assert(bytes_lt(fingerprint_key(b[m].fingerprint@), fingerprint_key(b[nb].fingerprint@)));
            assert(bytes_lt(fingerprint_key(a[i].fingerprint@), fingerprint_key(a[na].fingerprint@)));
            lemma_bytes_lt_asymmetric(fingerprint_key(x.fingerprint@), fingerprint_key(y.fingerprint@));
        }
        if m != nb {
            assert(i == na);
            lemma_same_values(y, x, y);
        }
        assert(same_values(x, y));
        lemma_same_values(x, y, x);
        assert(a.last() == x && b.last() == y);
        lemma_drop_last_holds(a, b);
        lemma_drop_last_holds(b, a);
        lemma_keys_ascending_drop_last(a);
        lemma_keys_ascending_drop_last(b);
        let (ia, ib) = (a.drop_last(), b.drop_last());
        lemma_sorted_groups_determined(ia, ib);
        assert forall|k: int| 0 <= k < a.len() implies same_values(#[trigger] a[k], b[k]) by {
            if k < na {
                assert(a[k] == ia[k] && b[k] == ib[k]);
            }
        }
    }
}

/// Each entry recorded for `groups1` holds the values of an entry recorded
/// for `groups2` when both list the same groups.
#[verifier::spinoff_prover]
proof fn lemma_records_held(
    corpus: Corpus,
    root: Seq<char>,
    groups1: Seq<DuplicateGroup>,
    groups2: Seq<DuplicateGroup>,
    recorded1: Seq<BaselineGroup>,
    recorded2: Seq<BaselineGroup>,
)
    requires
        groups1.to_multiset() == groups2.to_multiset(),
        forall|k: int| 0 <= k < recorded1.len() ==> records_some(corpus, groups1, root, #[trigger] recorded1[k]),
        forall|i: int| 0 <= i < groups2.len() ==> recorded_by_some(corpus, #[trigger] groups2[i], root, recorded2),
    ensures
        forall|k: int| 0 <= k < recorded1.len() ==> holds_values_of(recorded2, #[trigger] recorded1[k]),
{
    groups1.to_multiset_ensures();
    groups2.to_multiset_ensures();
    assert forall|k: int| 0 <= k < recorded1.len() implies holds_values_of(recorded2, #[trigger] recorded1[k]) by {
        let r = recorded1[k];
        assert(records_some(corpus, groups1, root, r));
        let i = choose|i: int| 0 <= i < groups1.len() && records_group(corpus, #[trigger] groups1[i], root, r);
        let g = groups1[i];
        assert(groups1.contains(g));
        assert(groups1.to_multiset().count(g) > 0);
        assert(groups2.to_multiset().count(g) > 0);
        assert(groups2.contains(g));
        let j = choose|j: int| 0 <= j < groups2.len() && groups2[j] == g;
        assert(recorded_by_some(corpus, groups2[j], root, recorded2));
        let m = choose|m: int| 0 <= m < recorded2.len() && records_group(corpus, g, root, #[trigger] recorded2[m]);
        lemma_record_determined(corpus, g, root, r, recorded2[m]);
        assert(same_values(r, recorded2[m])) by {
            reveal(same_values);
        }
    }
}

/// A baseline does not depend on the order of the detected groups: the
/// entries recorded for groups given in any order are the same entries,
/// in the same order.
pub proof fn law_baseline_independent_of_group_order(
    corpus: Corpus,
    root: Seq<char>,
    groups1: Seq<DuplicateGroup>,
    groups2: Seq<DuplicateGroup>,
    recorded1: Seq<BaselineGroup>,
    recorded2: Seq<BaselineGroup>,
)
    requires
        groups1.to_multiset() == groups2.to_multiset(),
        groups_sorted(recorded1),
        forall|k: int| 0 <= k < recorded1.len() ==> records_some(corpus, groups1, root, #[trigger] recorded1[k]),
        forall|i: int| 0 <= i < groups1.len() ==> recorded_by_some(corpus, #[trigger] groups1[i], root, recorded1),
        groups_sorted(recorded2),
        forall|k: int| 0 <= k < recorded2.len() ==> records_some(corpus, groups2, root, #[trigger] recorded2[k]),
        forall|i: int| 0 <= i < groups2.len() ==> recorded_by_some(corpus, #[trigger] groups2[i], root, recorded2),
    ensures
        recorded1.len() == recorded2.len(),
        forall|k: int| 0 <= k < recorded1.len() ==> same_baseline_group(#[trigger] recorded1[k], recorded2[k]),
{
    lemma_records_held(corpus, root, groups1, groups2, recorded1, recorded2);
    lemma_records_held(corpus, root, groups2, groups1, recorded2, recorded1);
    lemma_keys_ascending(recorded1);
    lemma_keys_ascending(recorded2);
    lemma_sorted_groups_determined(recorded1, recorded2);
    reveal(same_values);
}

/// Constructs the canonical baseline of already-detected duplicate groups:
/// one entry per group, ordered by fingerprint. Construction does not
/// depend on physical source line numbers.
pub fn build_baseline(
    corpus: &Corpus,
    groups: &Vec<DuplicateGroup>,
    normalization: NormalizationOptions,
    project_root: &str,
) -> (result: Result<Baseline, BaselineError>)
    ensures
        result is Ok <==> (forall|i: int|
            0 <= i < groups@.len() ==> fingerprint_ok(*corpus, #[trigger] groups@[i]) && counts_ok(
                *corpus,
                groups@[i],
                project_root@,
            )) && !repeats_group_fingerprint(*corpus, groups@),
        result matches Ok(b) ==> {
            &&& b.version == BASELINE_SCHEMA_VERSION
            &&& b.normalization == snapshot(normalization)
            &&& b.groups@.len() == groups@.len()
            &&& groups_sorted(b.groups@)
            &&& forall|k: int| 0 <= k < b.groups@.len() ==> records_some(*corpus, groups@, project_root@, #[trigger] b.groups@[k])
            &&& forall|i: int| 0 <= i < groups@.len() ==> recorded_by_some(*corpus, #[trigger] groups@[i], project_root@, b.groups@)
            &&& forall|k: int| 0 <= k < b.groups@.len() ==> no_more_entries(groups@, #[trigger] b.groups@[k])
        },
{
    let mut built: Vec<BaselineGroup> = Vec::new();
    let mut i: usize = 0;
    while i < groups.len()
        invariant
            i <= groups@.len(),
            built@.len() == i,
            forall|t: int|
                0 <= t < i ==> fingerprint_ok(*corpus, #[trigger] groups@[t]) && counts_ok(*corpus, groups@[t], project_root@),
            forall|t: int| 0 <= t < i ==> records_group(*corpus, groups@[t], project_root@, #[trigger] built@[t]),
            forall|t: int| 0 <= t < i ==> (#[trigger] built@[t]).occurrences@.len() <= groups@[t].occurrences@.len(),
        decreases groups@.len() - i,
    {
        let group = &groups[i];
        let fingerprint = match group_fingerprint(corpus, group) {
            Ok(fingerprint) => fingerprint,
            Err(error) => {
                return Err(error);
            },
        };
        let occurrences = match group_path_counts(corpus, group, project_root) {
            Ok(occurrences) => occurrences,
            Err(error) => {
                return Err(error);
            },
        };
        built.push(BaselineGroup { fingerprint, lines: group.effective_lines, occurrences });
        i = i + 1;
    }
    proof {
        assert(!repeats_group_fingerprint(*corpus, groups@) <==> !repeats_fingerprint(built@)) by {
            if repeats_group_fingerprint(*corpus, groups@) {
                let (a, b) = choose|a: int, b: int|
                    0 <= a < groups@.len() && 0 <= b < groups@.len() && a != b && group_fingerprint_text(
                        *corpus,
                        #[trigger] groups@[a],
                    ) == group_fingerprint_text(*corpus, #[trigger] groups@[b]);
                assert(records_group(*corpus, groups@[a], project_root@, built@[a]));
                assert(records_group(*corpus, groups@[b], project_root@, built@[b]));
                assert(built@[a].fingerprint@ == built@[b].fingerprint@);
            }
            if repeats_fingerprint(built@) {
                let (a, b) = choose|a: int, b: int|
                    0 <= a < built@.len() && 0 <= b < built@.len() && a != b && (#[trigger] built@[a]).fingerprint@
                        == (#[trigger] built@[b]).fingerprint@;
                assert(records_group(*corpus, groups@[a], project_root@, built@[a]));
                assert(records_group(*corpus, groups@[b], project_root@, built@[b]));
            }
        }
    }
    match sort_groups(&built) {
        Ok(sorted) => {
            proof {
                assert forall|k: int| 0 <= k < sorted@.len() implies records_some(*corpus, groups@, project_root@, #[trigger] sorted@[k]) by {
                    assert(has_group(built@, sorted@[k]));
                    let j = choose|j: int| 0 <= j < built@.len() && same_baseline_group(#[trigger] built@[j], sorted@[k]);
                    lemma_same_path_counts_symmetric(built@[j].occurrences@, sorted@[k].occurrences@);
                    lemma_records_copy(*corpus, groups@[j], project_root@, built@[j], sorted@[k]);
                }
                assert forall|k: int| 0 <= k < sorted@.len() implies no_more_entries(groups@, #[trigger] sorted@[k]) by {
                    assert(has_group(built@, sorted@[k]));
                    let j = choose|j: int| 0 <= j < built@.len() && same_baseline_group(#[trigger] built@[j], sorted@[k]);
                    assert(same_path_counts(built@[j].occurrences@, sorted@[k].occurrences@));
                    assert(built@[j].occurrences@.len() <= groups@[j].occurrences@.len());
                    assert(0 <= j < groups@.len() && sorted@[k].occurrences@.len() <= groups@[j].occurrences@.len());
                    assert(groups@[j] == groups@[j]);
                }
                assert forall|i: int| 0 <= i < groups@.len() implies recorded_by_some(*corpus, #[trigger] groups@[i], project_root@, sorted@) by {
                    assert(has_group(sorted@, built@[i]));
                    let k = choose|k: int| 0 <= k < sorted@.len() && same_baseline_group(#[trigger] sorted@[k], built@[i]);
                    lemma_records_copy(*corpus, groups@[i], project_root@, built@[i], sorted@[k]);
                }
            }
            let snapshot_value = BaselineNormalization::from(normalization);
            proof {
                assert(snapshot_value == snapshot(normalization));
            }
            Ok(Baseline { version: BASELINE_SCHEMA_VERSION, normalization: snapshot_value, groups: sorted })
        },
        Err(fingerprint) => Err(BaselineError::DuplicateFingerprint { fingerprint }),
    }
}

} // verus!
