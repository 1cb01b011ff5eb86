use vstd::prelude::*;
use vstd::string::StringSliceAdditionalSpecFns;

use crate::analysis::{SuppressionEvent, SuppressionKind};
use vstd::string::StringExecFns;

use crate::config::Settings;
use crate::corpus::{
    corpus_valid,
    all_line_ranges_valid,
    all_segments_valid,
    build_corpus,
    corpus_layout,
    file_key,
    has_duplicate_path,
    total_lines,
    total_segments,
    Corpus,
    CorpusError,
};
use crate::detect::{
    canonical_groups, detect_duplicates, formed_by_interval, interval_found, lcp_array_of, lcp_interval, qualified_group, sound_group, DetectError,
    DetectionOptions, LcpInterval,
};
use crate::suffix::is_suffix_array;
use crate::format::{decimal, push_decimal};
use crate::invocation::copy_strings;
use crate::model::{DuplicateGroup, Occurrence, PreparedFile};
use crate::order::{key_rank_le, pair_key, lemma_pair_key, sort_indices_by_text_and_rank, text_bytes};
use crate::paths::{join_slash, normal_component, project_relative_path, relative_result, valid_serialized};

verus! {

/// How a suppression region ends.
#[derive(Debug, Clone, Copy, PartialEq, Eq, Structural)]
pub enum SuppressionEnd {
    /// At the enable directive on this one-based physical line.
    Enable { line: u32 },
    /// At the end of the file.
    Eof,
}

/// A region opened by a disable directive on the one-based physical line
/// `disable_line`.
#[derive(Debug, Clone, Copy, PartialEq, Eq, Structural)]
pub struct SuppressionRegion {
    pub disable_line: u32,
    pub end: SuppressionEnd,
}

// ----------------------------------------------------------------------
// Physical lines of a source.
/// Number of `\n` bytes in `b`.
pub open spec fn newline_count(b: Seq<u8>) -> nat
    decreases b.len(),
{
    if b.len() == 0 {
        0
    } else {
        newline_count(b.drop_last()) + if b.last() == 10u8 {
            1nat
        } else {
            0nat
        }
    }
}

/// One-based physical line that byte `offset` of `b` lies on.
pub open spec fn line_of(b: Seq<u8>, offset: int) -> int {
    newline_count(b.take(offset)) + 1int
}

/// Number of physical lines of `b`: each ends at a `\n` or at the end.
pub open spec fn physical_line_count(b: Seq<u8>) -> nat {
    if b.len() == 0 {
        0
    } else {
        newline_count(b.drop_last()) + 1
    }
}

/// Regions closed so far and the line of the open disable, if any, after
/// the directives in `events`. A directive past the end of the source is
/// ignored, a disable while disabled or an enable while enabled does
/// nothing.
pub open spec fn region_scan(b: Seq<u8>, events: Seq<SuppressionEvent>) -> (
    Seq<SuppressionRegion>,
    Option<u32>,
)
    decreases events.len(),
{
    if events.len() == 0 {
        (seq![], None)
    } else {
        let (closed, open) = region_scan(b, events.drop_last());
        let event = events.last();
        if event.offset >= b.len() {
            (closed, open)
        } else {
            let line = line_of(b, event.offset as int) as u32;
            match (open, event.kind) {
                (None, SuppressionKind::Disable) => (closed, Some(line)),
                (Some(disable_line), SuppressionKind::Enable) => (
                    closed.push(
                        SuppressionRegion { disable_line, end: SuppressionEnd::Enable { line } },
                    ),
                    None,
                ),
                _ => (closed, open),
            }
        }
    }
}

/// The suppression regions that the directives `events` delimit in the
/// source `b`; a region still open at the end runs to the end of file.
pub open spec fn suppression_regions(b: Seq<u8>, events: Seq<SuppressionEvent>) -> Seq<
    SuppressionRegion,
> {
    let (closed, open) = region_scan(b, events);
    match open {
        Some(disable_line) => closed.push(SuppressionRegion { disable_line, end: SuppressionEnd::Eof }),
        None => closed,
    }
}

/// `events` are in source order.
pub open spec fn events_ordered(events: Seq<SuppressionEvent>) -> bool {
    forall|a: int, b: int| 0 <= a < b < events.len() ==> #[trigger] events[a].offset <= #[trigger] events[b].offset
}

proof fn lemma_newline_step(b: Seq<u8>, i: int)
    requires
        0 <= i < b.len(),
    ensures
        newline_count(b.take(i + 1)) == newline_count(b.take(i)) + if b[i] == 10u8 {
            1nat
        } else {
            0nat
        },
{
    assert(b.take(i + 1).drop_last() =~= b.take(i));
}

proof fn lemma_newline_monotone(b: Seq<u8>, i: int, j: int)
    requires
        0 <= i <= j <= b.len(),
    ensures
        newline_count(b.take(i)) <= newline_count(b.take(j)),
    decreases j - i,
{
    if i < j {
        lemma_newline_step(b, j - 1);
        lemma_newline_monotone(b, i, j - 1);
    }
}

/// Every byte lies on a line no later than the last one.
proof fn lemma_line_bound(b: Seq<u8>, offset: int)
    requires
        0 <= offset < b.len(),
    ensures
        line_of(b, offset) <= physical_line_count(b),
{
    lemma_newline_monotone(b, offset, b.len() - 1);
    assert(b.take(b.len() - 1) =~= b.drop_last());
}

/// A source has no more physical lines than bytes.
pub proof fn lemma_physical_lines_bound(b: Seq<u8>)
    ensures
        physical_line_count(b) <= b.len(),
{
    if b.len() > 0 {
        lemma_newline_count_bound(b.drop_last());
    }
}

proof fn lemma_newline_count_bound(b: Seq<u8>)
    ensures
        newline_count(b) <= b.len(),
    decreases b.len(),
{
    if b.len() > 0 {
        lemma_newline_count_bound(b.drop_last());
    }
}

/// The suppression regions that the directives `events` delimit in
/// `source`, in order.
pub fn derive_suppression_regions(source: &str, events: &[SuppressionEvent]) -> (regions: Vec<
    SuppressionRegion,
>)
    requires
        events_ordered(events@),
        physical_line_count(source.spec_bytes()) <= u32::MAX,
    ensures
        regions@ == suppression_regions(source.spec_bytes(), events@),
{
    let bytes = source.as_bytes();
    let ghost b = source.spec_bytes();
    let mut regions: Vec<SuppressionRegion> = Vec::new();
    let mut open: Option<u32> = None;
    let mut cursor: usize = 0;
    let mut newlines: u32 = 0;
    let mut k: usize = 0;
    while k < events.len()
        invariant
            bytes@ == b,
            physical_line_count(b) <= u32::MAX,
            events_ordered(events@),
            k <= events@.len(),
            cursor <= b.len(),
            newlines == newline_count(b.take(cursor as int)),
            forall|j: int| k <= j < events@.len() ==> cursor <= #[trigger] events@[j].offset,
            (regions@, open) == region_scan(b, events@.take(k as int)),
        decreases events@.len() - k,
    {
        let event = events[k];
        proof {
            assert(events@.take(k + 1).drop_last() =~= events@.take(k as int));
            assert(events@.take(k + 1).last() == event);
        }
        if event.offset < bytes.len() {
            while cursor < event.offset
                invariant
                    bytes@ == b,
                    physical_line_count(b) <= u32::MAX,
                    cursor <= event.offset < b.len(),
                    newlines == newline_count(b.take(cursor as int)),
                decreases event.offset - cursor,
            {
                proof {
                    lemma_newline_step(b, cursor as int);
                    lemma_newline_monotone(b, cursor + 1, b.len() - 1);
                    assert(b.take(b.len() - 1) =~= b.drop_last());
                }
                if bytes[cursor] == 10u8 {
                    newlines = newlines + 1;
                }
                cursor = cursor + 1;
            }
            proof {
                lemma_line_bound(b, event.offset as int);
            }
            let line = newlines + 1;
            match (open, event.kind) {
                (None, SuppressionKind::Disable) => {
                    open = Some(line);
                },
                (Some(disable_line), SuppressionKind::Enable) => {
                    regions.push(
                        SuppressionRegion { disable_line, end: SuppressionEnd::Enable { line } },
                    );
                    open = None;
                },
                _ => {},
            }
        }
        k = k + 1;
    }
    proof {
        assert(events@.take(k as int) =~= events@);
    }
    if let Some(disable_line) = open {
        regions.push(SuppressionRegion { disable_line, end: SuppressionEnd::Eof });
    }
    regions
}

// ----------------------------------------------------------------------
// Which regions still suppress a duplicate.
/// Outcome of a suppression region in the audit.
#[derive(Debug, Clone, Copy, PartialEq, Eq, Structural)]
pub enum SuppressionStatusKind {
    /// Removing the region would expose a duplicate.
    Active,
    /// Nothing in the region takes part in a duplicate.
    Stale,
}

/// How a reported region ends.
#[derive(Debug, Clone, Copy, PartialEq, Eq, Structural)]
pub enum SuppressionTermination {
    Enable,
    Eof,
}

/// One region in the audit, with its project-relative path.
#[derive(Debug, PartialEq, Eq)]
pub struct SuppressionStatusRegion {
    pub path: String,
    pub start_line: u32,
    pub end_line: Option<u32>,
    pub termination: SuppressionTermination,
    pub status: SuppressionStatusKind,
}

/// Why the audit failed.
#[derive(Debug, PartialEq, Eq)]
pub enum SuppressionAuditError {
    Corpus(CorpusError),
    Detect(DetectError),
    /// A duplicate occurrence that does not map onto its file's lines.
    InvalidOccurrence { file: u32, start: u32, end: u32 },
}

/// One-based first and last physical lines of occurrence `o`, when it lies
/// inside its file and both lines can be numbered.
pub open spec fn occurrence_span(files: Seq<PreparedFile>, o: Occurrence) -> Option<(int, int)> {
    if o.file < files.len() && o.normalized_len > 0 && o.normalized_start + o.normalized_len
        <= files[o.file as int].lines@.len() {
        let lines = files[o.file as int].lines@;
        let first = lines[o.normalized_start as int].source_line;
        let last = lines[o.normalized_start + o.normalized_len - 1].source_line;
        if first < u32::MAX && last < u32::MAX {
            Some((first + 1, last + 1))
        } else {
            None
        }
    } else {
        None
    }
}

/// An occurrence spanning lines `start..=end` reaches into region `r`: it
/// ends after the disable line and, for an enabled region, starts no later
/// than the enable line.
pub open spec fn region_affected(start: int, end: int, r: SuppressionRegion) -> bool {
    &&& end > r.disable_line
    &&& match r.end {
        SuppressionEnd::Enable { line } => start <= line,
        SuppressionEnd::Eof => true,
    }
}

/// Occurrence `o` lies in the file at `path` and reaches into `r`.
pub open spec fn occurrence_marks(files: Seq<PreparedFile>, o: Occurrence, path: Seq<char>, r: SuppressionRegion) -> bool {
    &&& o.file < files.len()
    &&& files[o.file as int].path@ == path
    &&& occurrence_span(files, o) matches Some((start, end)) && region_affected(start, end, r)
}

/// Some occurrence before occurrence `k` of group `g` marks `r` in `path`.
pub open spec fn marked_before(
    files: Seq<PreparedFile>,
    groups: Seq<DuplicateGroup>,
    path: Seq<char>,
    r: SuppressionRegion,
    g: int,
    k: int,
) -> bool {
    exists|a: int, b: int|
        0 <= a < groups.len() && 0 <= b < groups[a].occurrences@.len() && (a < g || (a == g && b < k))
            && #[trigger] occurrence_marks(files, groups[a].occurrences@[b], path, r)
}

/// Region `r` of the file at `path` is reached by an occurrence of a group.
pub open spec fn region_active(files: Seq<PreparedFile>, groups: Seq<DuplicateGroup>, path: Seq<char>, r: SuppressionRegion) -> bool {
    marked_before(files, groups, path, r, groups.len() as int, 0)
}

/// Every occurrence of every group maps onto its file's lines.
pub open spec fn occurrences_mapped(files: Seq<PreparedFile>, groups: Seq<DuplicateGroup>) -> bool {
    forall|g: int, k: int|
        0 <= g < groups.len() && 0 <= k < groups[g].occurrences@.len() ==> #[trigger] occurrence_span(
            files,
            groups[g].occurrences@[k],
        ) is Some
}

/// The error reported for an occurrence that does not map.
pub open spec fn invalid_occurrence(o: Occurrence) -> SuppressionAuditError {
    SuppressionAuditError::InvalidOccurrence {
        file: o.file,
        start: o.normalized_start,
        end: if o.normalized_start + o.normalized_len > u32::MAX {
            u32::MAX
        } else {
            (o.normalized_start + o.normalized_len) as u32
        },
    }
}

/// The path shown for a file: its project-relative form when it has one,
/// else the path as given.
pub open spec fn shown_path(path: Seq<char>, root: Seq<char>) -> Seq<char> {
    match relative_result(path, root) {
        Some(rel) => if (forall|k: int| 0 <= k < rel.len() ==> normal_component(#[trigger] rel[k]))
            && valid_serialized(join_slash(rel)) {
            join_slash(rel)
        } else {
            path
        },
        None => path,
    }
}

/// The values of one reported region.
pub type RegionRecord = (Seq<char>, u32, Option<u32>, SuppressionTermination, SuppressionStatusKind);

pub open spec fn status_record(r: SuppressionStatusRegion) -> RegionRecord {
    (r.path@, r.start_line, r.end_line, r.termination, r.status)
}

/// The record of region `r` of a file shown as `path`.
pub open spec fn region_record(path: Seq<char>, r: SuppressionRegion, active: bool) -> RegionRecord {
    (
        path,
        r.disable_line,
        match r.end {
            SuppressionEnd::Enable { line } => Some(line),
            SuppressionEnd::Eof => None,
        },
        match r.end {
            SuppressionEnd::Enable { .. } => SuppressionTermination::Enable,
            SuppressionEnd::Eof => SuppressionTermination::Eof,
        },
        if active {
            SuppressionStatusKind::Active
        } else {
            SuppressionStatusKind::Stale
        },
    )
}

/// Records of the regions `regions` of the file at `path`, in order.
pub open spec fn file_records(
    files: Seq<PreparedFile>,
    groups: Seq<DuplicateGroup>,
    path: Seq<char>,
    regions: Seq<SuppressionRegion>,
    root: Seq<char>,
) -> Seq<RegionRecord> {
    Seq::new(
        regions.len(),
        |k: int| region_record(shown_path(path, root), regions[k], region_active(files, groups, path, regions[k])),
    )
}

/// Records of the regions of the first `n` audited files, file after file.
pub open spec fn all_records(
    files: Seq<PreparedFile>,
    groups: Seq<DuplicateGroup>,
    paths: Seq<Seq<char>>,
    sets: Seq<Seq<SuppressionRegion>>,
    root: Seq<char>,
    n: int,
) -> Seq<RegionRecord>
    decreases n,
{
    if n <= 0 {
        seq![]
    } else {
        all_records(files, groups, paths, sets, root, n - 1) + file_records(
            files,
            groups,
            paths[n - 1],
            sets[n - 1],
            root,
        )
    }
}

/// No two of `paths` are the same.
pub open spec fn distinct_paths(paths: Seq<Seq<char>>) -> bool {
    forall|a: int, b: int| 0 <= a < paths.len() && 0 <= b < paths.len() && a != b ==> #[trigger] paths[a] != #[trigger] paths[b]
}

/// First and last physical line of `o`, when it maps onto its file.
fn occurrence_lines(files: &Vec<PreparedFile>, o: Occurrence) -> (span: Option<(u32, u32)>)
    ensures
        match span {
            Some((start, end)) => occurrence_span(files@, o) == Some((start as int, end as int)),
            None => occurrence_span(files@, o) is None,
        },
{
    let index = o.file as usize;
    if index >= files.len() || o.normalized_len == 0 {
        return None;
    }
    let lines = &files[index].lines;
    if o.normalized_len as usize > lines.len() || o.normalized_start as usize > lines.len() - o.normalized_len as usize {
        return None;
    }
    let first = lines[o.normalized_start as usize].source_line;
    let last = lines[o.normalized_start as usize + o.normalized_len as usize - 1].source_line;
    if first < u32::MAX && last < u32::MAX {
        Some((first + 1, last + 1))
    } else {
        None
    }
}

fn region_is_affected(start: u32, end: u32, r: SuppressionRegion) -> (affected: bool)
    ensures
        affected == region_affected(start as int, end as int, r),
{
    if end <= r.disable_line {
        return false;
    }
    match r.end {
        SuppressionEnd::Enable { line } => start <= line,
        SuppressionEnd::Eof => true,
    }
}

fn invalid_occurrence_error(o: Occurrence) -> (e: SuppressionAuditError)
    ensures
        e == invalid_occurrence(o),
{
    SuppressionAuditError::InvalidOccurrence {
        file: o.file,
        start: o.normalized_start,
        end: o.normalized_start.saturating_add(o.normalized_len),
    }
}

/// Marks the regions that occurrence `o` reaches into, in the file whose
/// path it names.
fn mark_active_regions(
    files: &Vec<PreparedFile>,
    paths: &Vec<String>,
    sets: &Vec<Vec<SuppressionRegion>>,
    o: Occurrence,
    active: &mut Vec<Vec<bool>>,
) -> (result: Result<(), SuppressionAuditError>)
    requires
        paths@.len() == sets@.len(),
        old(active)@.len() == sets@.len(),
        forall|j: int| 0 <= j < sets@.len() ==> (#[trigger] old(active)@[j])@.len() == sets@[j]@.len(),
        distinct_paths(paths@.map_values(|p: String| p@)),
    ensures
        result is Ok <==> occurrence_span(files@, o) is Some,
        result matches Err(e) ==> e == invalid_occurrence(o),
        final(active)@.len() == sets@.len(),
        forall|j: int| 0 <= j < sets@.len() ==> (#[trigger] final(active)@[j])@.len() == sets@[j]@.len(),
        result is Ok ==> forall|j: int, k: int|
            0 <= j < sets@.len() && 0 <= k < sets@[j]@.len() ==> #[trigger] final(active)@[j]@[k] == (
            old(active)@[j]@[k] || occurrence_marks(files@, o, paths@[j]@, sets@[j]@[k])),
{
    let (start, end) = match occurrence_lines(files, o) {
        Some(span) => span,
        None => {
            return Err(invalid_occurrence_error(o));
        },
    };
    let path = &files[o.file as usize].path;
    let mut j: usize = 0;
    while j < paths.len() && paths[j] != *path
        invariant
            j <= paths@.len(),
            forall|i: int| 0 <= i < j ==> paths@[i]@ != path@,
        decreases paths@.len() - j,
    {
        j = j + 1;
    }
    if j == paths.len() {
        proof {
            assert forall|a: int, k: int|
                0 <= a < sets@.len() && 0 <= k < sets@[a]@.len() implies #[trigger] active@[a]@[k] == (
                old(active)@[a]@[k] || occurrence_marks(files@, o, paths@[a]@, sets@[a]@[k])) by {
                assert(paths@[a]@ != path@);
            }
        }
        return Ok(());
    }
    let regions = &sets[j];
    let mut row: Vec<bool> = Vec::new();
    let mut k: usize = 0;
    while k < regions.len()
        invariant
            j < paths@.len(),
            paths@.len() == sets@.len(),
            active@.len() == sets@.len(),
            regions@ == sets@[j as int]@,
            active@[j as int]@.len() == regions@.len(),
            k <= regions@.len(),
            row@.len() == k,
            forall|i: int| 0 <= i < k ==> #[trigger] row@[i] == (active@[j as int]@[i] || region_affected(start as int, end as int, regions@[i])),
        decreases regions@.len() - k,
    {
        let hit = region_is_affected(start, end, regions[k]);
        row.push(active[j][k] || hit);
        k = k + 1;
    }
    let ghost before = active@;
    active.set(j, row);
    proof {
        assert forall|a: int, i: int|
            0 <= a < sets@.len() && 0 <= i < sets@[a]@.len() implies #[trigger] active@[a]@[i] == (
            old(active)@[a]@[i] || occurrence_marks(files@, o, paths@[a]@, sets@[a]@[i])) by {
            if a == j {
                assert(paths@[a]@ == path@);
            } else {
                let views = paths@.map_values(|p: String| p@);
                assert(views[a] == paths@[a]@ && views[j as int] == paths@[j as int]@);
                assert(paths@[a]@ != path@);
            }
        }
    }
    Ok(())
}

/// The audit records of the regions `sets[j]` of the files at `paths[j]`,
/// file after file, given the duplicate `groups` found in `files`.
pub fn suppression_records(
    files: &Vec<PreparedFile>,
    paths: &Vec<String>,
    sets: &Vec<Vec<SuppressionRegion>>,
    groups: &Vec<DuplicateGroup>,
    project_root: &str,
) -> (result: Result<Vec<SuppressionStatusRegion>, SuppressionAuditError>)
    requires
        paths@.len() == sets@.len(),
        distinct_paths(paths@.map_values(|p: String| p@)),
    ensures
        result is Ok <==> occurrences_mapped(files@, groups@),
        result matches Err(e) ==> exists|g: int, k: int|
            0 <= g < groups@.len() && 0 <= k < groups@[g].occurrences@.len() && occurrence_span(
                files@,
                #[trigger] groups@[g].occurrences@[k],
            ) is None && e == invalid_occurrence(groups@[g].occurrences@[k]),
        result matches Ok(records) ==> {
            let expected = all_records(
                files@,
                groups@,
                paths@.map_values(|p: String| p@),
                sets@.map_values(|v: Vec<SuppressionRegion>| v@),
                project_root@,
                sets@.len() as int,
            );
            &&& records@.len() == expected.len()
            &&& forall|i: int| 0 <= i < records@.len() ==> status_record(#[trigger] records@[i]) == expected[i]
        },
{
    let ghost views = paths@.map_values(|p: String| p@);
    let mut active: Vec<Vec<bool>> = Vec::new();
    let mut j: usize = 0;
    while j < sets.len()
        invariant
            j <= sets@.len(),
            active@.len() == j,
            forall|a: int| 0 <= a < j ==> (#[trigger] active@[a])@.len() == sets@[a]@.len(),
            forall|a: int, i: int| 0 <= a < j && 0 <= i < sets@[a]@.len() ==> !#[trigger] active@[a]@[i],
        decreases sets@.len() - j,
    {
        let mut row: Vec<bool> = Vec::new();
        let mut k: usize = 0;
        while k < sets[j].len()
            invariant
                j < sets@.len(),
                k <= sets@[j as int]@.len(),
                row@.len() == k,
                forall|i: int| 0 <= i < k ==> !#[trigger] row@[i],
            decreases sets@[j as int]@.len() - k,
        {
            row.push(false);
            k = k + 1;
        }
        active.push(row);
        j = j + 1;
    }
    let mut g: usize = 0;
    while g < groups.len()
        invariant
            paths@.len() == sets@.len(),
            views == paths@.map_values(|p: String| p@),
            distinct_paths(views),
            g <= groups@.len(),
            active@.len() == sets@.len(),
            forall|a: int| 0 <= a < sets@.len() ==> (#[trigger] active@[a])@.len() == sets@[a]@.len(),
            forall|a: int, i: int|
                0 <= a < sets@.len() && 0 <= i < sets@[a]@.len() ==> #[trigger] active@[a]@[i] == marked_before(
                    files@,
                    groups@,
                    paths@[a]@,
                    sets@[a]@[i],
                    g as int,
                    0,
                ),
            forall|a: int, b: int|
                0 <= a < g && 0 <= b < groups@[a].occurrences@.len() ==> #[trigger] occurrence_span(
                    files@,
                    groups@[a].occurrences@[b],
                ) is Some,
        decreases groups@.len() - g,
    {
        let occurrences = &groups[g].occurrences;
        let mut k: usize = 0;
        while k < occurrences.len()
            invariant
                paths@.len() == sets@.len(),
                views == paths@.map_values(|p: String| p@),
                distinct_paths(views),
                g < groups@.len(),
                occurrences@ == groups@[g as int].occurrences@,
                k <= occurrences@.len(),
                active@.len() == sets@.len(),
                forall|a: int| 0 <= a < sets@.len() ==> (#[trigger] active@[a])@.len() == sets@[a]@.len(),
                forall|a: int, i: int|
                    0 <= a < sets@.len() && 0 <= i < sets@[a]@.len() ==> #[trigger] active@[a]@[i] == marked_before(
                        files@,
                        groups@,
                        paths@[a]@,
                        sets@[a]@[i],
                        g as int,
                        k as int,
                    ),
                forall|a: int, b: int|
                    0 <= a < groups@.len() && 0 <= b < groups@[a].occurrences@.len() && (a < g || (a == g && b < k))
                        ==> #[trigger] occurrence_span(files@, groups@[a].occurrences@[b]) is Some,
            decreases occurrences@.len() - k,
        {
            let o = occurrences[k];
            let ghost before = active@;
            match mark_active_regions(files, paths, sets, o, &mut active) {
                Ok(()) => {},
                Err(e) => {
                    return Err(e);
                },
            }
            proof {
                assert forall|a: int, i: int|
                    0 <= a < sets@.len() && 0 <= i < sets@[a]@.len() implies #[trigger] active@[a]@[i]
                        == marked_before(files@, groups@, paths@[a]@, sets@[a]@[i], g as int, k + 1) by {
                    let path = paths@[a]@;
                    let r = sets@[a]@[i];
                    if marked_before(files@, groups@, path, r, g as int, k as int) {
                        let (x, y) = choose|x: int, y: int|
                            0 <= x < groups@.len() && 0 <= y < groups@[x].occurrences@.len() && (x < g || (x == g && y < k))
                                && #[trigger] occurrence_marks(files@, groups@[x].occurrences@[y], path, r);
                        assert(occurrence_marks(files@, groups@[x].occurrences@[y], path, r));
                    }
                    if occurrence_marks(files@, o, path, r) {
                        assert(groups@[g as int].occurrences@[k as int] == o);
                        assert(occurrence_marks(files@, groups@[g as int].occurrences@[k as int], path, r));
                    }
                    if marked_before(files@, groups@, path, r, g as int, k + 1) {
                        let (x, y) = choose|x: int, y: int|
                            0 <= x < groups@.len() && 0 <= y < groups@[x].occurrences@.len() && (x < g || (x == g && y < k + 1))
                                && #[trigger] occurrence_marks(files@, groups@[x].occurrences@[y], path, r);
                        if !(x == g && y == k) {
                            assert(occurrence_marks(files@, groups@[x].occurrences@[y], path, r));
                            assert(marked_before(files@, groups@, path, r, g as int, k as int));
                        }
                    }
                }
                assert forall|a: int, b: int|
                    0 <= a < groups@.len() && 0 <= b < groups@[a].occurrences@.len() && (a < g || (a == g && b < k + 1))
                        implies #[trigger] occurrence_span(files@, groups@[a].occurrences@[b]) is Some by {
                    if a == g && b == k {
                        assert(groups@[a].occurrences@[b] == o);
                    }
                }
            }
            k = k + 1;
        }
        proof {
            assert forall|a: int, i: int|
                0 <= a < sets@.len() && 0 <= i < sets@[a]@.len() implies #[trigger] active@[a]@[i]
                    == marked_before(files@, groups@, paths@[a]@, sets@[a]@[i], g + 1, 0) by {
                let path = paths@[a]@;
                let r = sets@[a]@[i];
                if marked_before(files@, groups@, path, r, g as int, k as int) {
                    let (x, y) = choose|x: int, y: int|
                        0 <= x < groups@.len() && 0 <= y < groups@[x].occurrences@.len() && (x < g || (x == g && y < k))
                            && #[trigger] occurrence_marks(files@, groups@[x].occurrences@[y], path, r);
                    assert(occurrence_marks(files@, groups@[x].occurrences@[y], path, r));
                }
                if marked_before(files@, groups@, path, r, g + 1, 0) {
                    let (x, y) = choose|x: int, y: int|
                        0 <= x < groups@.len() && 0 <= y < groups@[x].occurrences@.len() && (x < g + 1 || (x == g + 1 && y < 0))
                            && #[trigger] occurrence_marks(files@, groups@[x].occurrences@[y], path, r);
                    assert(occurrence_marks(files@, groups@[x].occurrences@[y], path, r));
                }
            }
        }
        g = g + 1;
    }
    let ghost expected_sets = sets@.map_values(|v: Vec<SuppressionRegion>| v@);
    let mut records: Vec<SuppressionStatusRegion> = Vec::new();
    let mut j: usize = 0;
    while j < sets.len()
        invariant
            paths@.len() == sets@.len(),
            views == paths@.map_values(|p: String| p@),
            expected_sets == sets@.map_values(|v: Vec<SuppressionRegion>| v@),
            j <= sets@.len(),
            active@.len() == sets@.len(),
            forall|a: int| 0 <= a < sets@.len() ==> (#[trigger] active@[a])@.len() == sets@[a]@.len(),
            forall|a: int, i: int|
                0 <= a < sets@.len() && 0 <= i < sets@[a]@.len() ==> #[trigger] active@[a]@[i] == region_active(
                    files@,
                    groups@,
                    paths@[a]@,
                    sets@[a]@[i],
                ),
            records@.len() == all_records(files@, groups@, views, expected_sets, project_root@, j as int).len(),
            forall|i: int|
                0 <= i < records@.len() ==> status_record(#[trigger] records@[i]) == all_records(
                    files@,
                    groups@,
                    views,
                    expected_sets,
                    project_root@,
                    j as int,
                )[i],
        decreases sets@.len() - j,
    {
        let shown = match project_relative_path(paths[j].as_str(), project_root) {
            Ok(relative) => relative,
            Err(_) => paths[j].clone(),
        };
        proof {
            assert(shown@ == shown_path(paths@[j as int]@, project_root@));
        }
        let regions = &sets[j];
        let ghost base = records@.len();
        let ghost prefix = all_records(files@, groups@, views, expected_sets, project_root@, j as int);
        let ghost tail = file_records(files@, groups@, paths@[j as int]@, regions@, project_root@);
        proof {
            assert(views[j as int] == paths@[j as int]@);
            assert(expected_sets[j as int] == regions@);
            assert(all_records(files@, groups@, views, expected_sets, project_root@, j + 1) == prefix + tail);
        }
        let mut k: usize = 0;
        while k < regions.len()
            invariant
                j < sets@.len(),
                regions@ == sets@[j as int]@,
                active@.len() == sets@.len(),
                active@[j as int]@.len() == regions@.len(),
                forall|i: int| 0 <= i < regions@.len() ==> #[trigger] active@[j as int]@[i] == region_active(
                    files@,
                    groups@,
                    paths@[j as int]@,
                    regions@[i],
                ),
                shown@ == shown_path(paths@[j as int]@, project_root@),
                tail == file_records(files@, groups@, paths@[j as int]@, regions@, project_root@),
                prefix.len() == base,
                k <= regions@.len(),
                records@.len() == base + k,
                forall|i: int| 0 <= i < base + k ==> status_record(#[trigger] records@[i]) == (prefix + tail)[i],
            decreases regions@.len() - k,
        {
            let region = regions[k];
            let (end_line, termination) = match region.end {
                SuppressionEnd::Enable { line } => (Some(line), SuppressionTermination::Enable),
                SuppressionEnd::Eof => (None, SuppressionTermination::Eof),
            };
            let status = if active[j][k] {
                SuppressionStatusKind::Active
            } else {
                SuppressionStatusKind::Stale
            };
            records.push(
                SuppressionStatusRegion {
                    path: shown.clone(),
                    start_line: region.disable_line,
                    end_line,
                    termination,
                    status,
                },
            );
            proof {
                assert((prefix + tail)[base + k] == tail[k as int]);
            }
            k = k + 1;
        }
        j = j + 1;
    }
    Ok(records)
}

// ----------------------------------------------------------------------
// The audit of a whole project.
/// Version of the suppression status schema.
pub const SUPPRESSION_STATUS_SCHEMA_VERSION: u8 = 1;

/// A prepared file with the suppression regions of its source.
#[derive(Debug)]
pub struct AuditPreparedFile {
    pub file: PreparedFile,
    pub suppressions: Vec<SuppressionRegion>,
}

/// The settings an audit ran with.
#[derive(Debug, PartialEq, Eq)]
pub struct SuppressionAnalysis {
    pub min_lines: u32,
    pub ignore_comments: bool,
    pub ignore_docstrings: bool,
    pub ignore_imports: bool,
    pub ignore_signatures: bool,
    pub same_file: bool,
    pub hidden: bool,
    pub exclude: Vec<String>,
    pub ignore_files: bool,
}

/// Number of regions in total and by outcome.
#[derive(Debug, Clone, Copy, PartialEq, Eq, Structural)]
pub struct SuppressionSummary {
    pub total: u64,
    pub active: u64,
    pub stale: u64,
}

impl Default for SuppressionSummary {
    fn default() -> (summary: Self)
        ensures
            summary.total == 0 && summary.active == 0 && summary.stale == 0,
    {
        SuppressionSummary { total: 0, active: 0, stale: 0 }
    }
}

/// Result of auditing the suppression regions of a project.
#[derive(Debug, PartialEq, Eq)]
pub struct SuppressionStatus {
    pub schema_version: u8,
    pub tool_version: String,
    pub files: u64,
    pub analysis: SuppressionAnalysis,
    pub summary: SuppressionSummary,
    pub regions: Vec<SuppressionStatusRegion>,
}

impl SuppressionStatus {
    /// Some region no longer suppresses anything.
    pub fn has_stale(&self) -> (stale: bool)
        ensures
            stale == (self.summary.stale > 0),
    {
        self.summary.stale > 0
    }
}

/// Every line of every file names a source line below `u32::MAX`, so
/// each occurrence maps to one-based source lines.
pub open spec fn lines_numbered(files: Seq<PreparedFile>) -> bool {
    forall|f: PreparedFile, i: int|
        files.contains(f) && 0 <= i < f.lines@.len() ==> (#[trigger] f.lines@[i]).source_line < u32::MAX
}

pub open spec fn audited_files(prepared: Seq<AuditPreparedFile>) -> Seq<PreparedFile> {
    prepared.map_values(|a: AuditPreparedFile| a.file)
}

pub open spec fn audited_paths(prepared: Seq<AuditPreparedFile>) -> Seq<Seq<char>> {
    prepared.map_values(|a: AuditPreparedFile| a.file.path@)
}

pub open spec fn audited_sets(prepared: Seq<AuditPreparedFile>) -> Seq<Seq<SuppressionRegion>> {
    prepared.map_values(|a: AuditPreparedFile| a.suppressions@)
}

/// `build_corpus` accepts `files`.
pub open spec fn corpus_accepts(files: Seq<PreparedFile>) -> bool {
    &&& !has_duplicate_path(files)
    &&& all_segments_valid(files)
    &&& total_lines(files) + total_segments(files) <= u32::MAX
    &&& all_line_ranges_valid(files)
    &&& files.len() <= u32::MAX + 1
}

/// Sort position of an end line: end of file after every line.
pub open spec fn end_rank(end_line: Option<u32>) -> int {
    match end_line {
        Some(line) => line as int,
        None => u32::MAX as int,
    }
}

/// Rank of a region among regions of the same path.
pub open spec fn region_rank(r: SuppressionStatusRegion) -> int {
    pair_key(r.start_line as int, end_rank(r.end_line))
}

/// Regions ordered by path bytes, then start line, then end line.
pub open spec fn regions_sorted(regions: Seq<SuppressionStatusRegion>) -> bool {
    forall|a: int, b: int|
        0 <= a < b < regions.len() ==> key_rank_le(
            text_bytes((#[trigger] regions[a]).path@),
            region_rank(regions[a]),
            text_bytes((#[trigger] regions[b]).path@),
            region_rank(regions[b]),
        )
}

/// `regions` are the records `expected`, reordered.
pub open spec fn reorders(regions: Seq<SuppressionStatusRegion>, expected: Seq<RegionRecord>) -> bool {
    exists|order: Seq<usize>|
        {
            &&& order.len() == expected.len()
            &&& regions.len() == expected.len()
            &&& order.no_duplicates()
            &&& forall|r: int| 0 <= r < order.len() ==> #[trigger] order[r] < expected.len()
            &&& forall|r: int| 0 <= r < order.len() ==> status_record(#[trigger] regions[r]) == expected[order[r] as int]
        }
}

/// Number of `regions` with outcome `kind`.
pub open spec fn count_status(regions: Seq<SuppressionStatusRegion>, kind: SuppressionStatusKind) -> nat
    decreases regions.len(),
{
    if regions.len() == 0 {
        0
    } else {
        count_status(regions.drop_last(), kind) + if regions.last().status == kind {
            1nat
        } else {
            0nat
        }
    }
}

/// The detection options of `settings`.
pub open spec fn audit_options(settings: Settings) -> DetectionOptions {
    DetectionOptions { min_lines: settings.min_lines, same_file: settings.same_file }
}

/// `corpus` lays out `files` and `groups` are duplicates detected in it.
pub open spec fn audit_detection(files: Seq<PreparedFile>, settings: Settings, corpus: Corpus, groups: Seq<DuplicateGroup>) -> bool {
    &&& corpus_layout(corpus)
    &&& corpus.files@.to_multiset() == files.to_multiset()
    &&& canonical_groups(groups)
    &&& forall|k: int| 0 <= k < groups.len() ==> qualified_group(corpus, audit_options(settings), #[trigger] groups[k])
    &&& exists|sa: Seq<u32>, lcp: Seq<u32>|
        #![trigger is_suffix_array(corpus.tokens@, sa), lcp_array_of(corpus.tokens@, sa, lcp)]
        is_suffix_array(corpus.tokens@, sa) && lcp_array_of(corpus.tokens@, sa, lcp) && (forall|interval: LcpInterval|
            #[trigger] lcp_interval(lcp, interval) && interval.length >= settings.min_lines ==> interval_found(
                corpus,
                sa,
                interval,
                audit_options(settings),
                groups,
            )) && forall|k: int|
            0 <= k < groups.len() ==> formed_by_interval(corpus, sa, lcp, audit_options(settings), #[trigger] groups[k])
    &&& corpus_valid(corpus) && corpus.tokens@.len() <= u32::MAX ==> forall|k: int|
        0 <= k < groups.len() ==> sound_group(corpus, #[trigger] groups[k])
}

/// Splits audited files into the prepared files and their region lists.
fn split_audited(prepared: Vec<AuditPreparedFile>) -> (split: (Vec<PreparedFile>, Vec<Vec<SuppressionRegion>>))
    ensures
        split.0@ == audited_files(prepared@),
        split.1@.len() == prepared@.len(),
        forall|j: int| 0 <= j < prepared@.len() ==> (#[trigger] split.1@[j])@ == prepared@[j].suppressions@,
{
    let ghost input = prepared@;
    let mut rest = prepared;
    let mut reversed: Vec<AuditPreparedFile> = Vec::new();
    while rest.len() > 0
        invariant
            rest@.len() + reversed@.len() == input.len(),
            rest@ == input.take(rest@.len() as int),
            forall|i: int| 0 <= i < reversed@.len() ==> #[trigger] reversed@[i] == input[input.len() - 1 - i],
        decreases rest@.len(),
    {
        let item = rest.pop().unwrap();
        reversed.push(item);
        proof {
            assert(rest@ =~= input.take(rest@.len() as int));
        }
    }
    let mut files: Vec<PreparedFile> = Vec::new();
    let mut sets: Vec<Vec<SuppressionRegion>> = Vec::new();
    while reversed.len() > 0
        invariant
            reversed@.len() + files@.len() == input.len(),
            files@.len() == sets@.len(),
            forall|i: int| 0 <= i < reversed@.len() ==> #[trigger] reversed@[i] == input[input.len() - 1 - i],
            forall|i: int| 0 <= i < files@.len() ==> #[trigger] files@[i] == input[i].file,
            forall|i: int| 0 <= i < sets@.len() ==> (#[trigger] sets@[i])@ == input[i].suppressions@,
        decreases reversed@.len(),
    {
        let item = reversed.pop().unwrap();
        let AuditPreparedFile { file, suppressions } = item;
        files.push(file);
        sets.push(suppressions);
    }
    proof {
        assert(files@ =~= audited_files(input));
    }
    (files, sets)
}

/// Copies of the paths of `files`.
fn file_paths(files: &Vec<PreparedFile>) -> (paths: Vec<String>)
    ensures
        paths@.len() == files@.len(),
        forall|j: int| 0 <= j < files@.len() ==> (#[trigger] paths@[j])@ == files@[j].path@,
{
    let mut paths: Vec<String> = Vec::new();
    let mut j: usize = 0;
    while j < files.len()
        invariant
            j <= files@.len(),
            paths@.len() == j,
            forall|i: int| 0 <= i < j ==> (#[trigger] paths@[i])@ == files@[i].path@,
        decreases files@.len() - j,
    {
        paths.push(files[j].path.clone());
        j = j + 1;
    }
    paths
}

/// `records` ordered by path, then start line, then end line.
fn sort_status_regions(records: &Vec<SuppressionStatusRegion>) -> (sorted: Vec<SuppressionStatusRegion>)
    ensures
        regions_sorted(sorted@),
        sorted@.len() == records@.len(),
        reorders(sorted@, records@.map_values(|r: SuppressionStatusRegion| status_record(r))),
{
    let ghost views = records@.map_values(|r: SuppressionStatusRegion| status_record(r));
    let mut keys: Vec<String> = Vec::new();
    let mut ranks: Vec<u128> = Vec::new();
    let mut i: usize = 0;
    while i < records.len()
        invariant
            i <= records@.len(),
            keys@.len() == i,
            ranks@.len() == i,
            forall|k: int| 0 <= k < i ==> (#[trigger] keys@[k])@ == records@[k].path@,
            forall|k: int| 0 <= k < i ==> #[trigger] ranks@[k] as int == region_rank(records@[k]),
        decreases records@.len() - i,
    {
        let record = &records[i];
        let end: u32 = match record.end_line {
            Some(line) => line,
            None => u32::MAX,
        };
        let rank: u128 = record.start_line as u128 * 4294967296u128 + end as u128;
        keys.push(record.path.clone());
        ranks.push(rank);
        i = i + 1;
    }
    let order = sort_indices_by_text_and_rank(&keys, &ranks);
    let mut sorted: Vec<SuppressionStatusRegion> = Vec::new();
    let mut r: usize = 0;
    while r < order.len()
        invariant
            order@.len() == records@.len(),
            keys@.len() == records@.len(),
            ranks@.len() == records@.len(),
            forall|k: int| 0 <= k < order@.len() ==> #[trigger] order@[k] < records@.len(),
            forall|k: int| 0 <= k < records@.len() ==> (#[trigger] keys@[k])@ == records@[k].path@,
            forall|k: int| 0 <= k < records@.len() ==> #[trigger] ranks@[k] as int == region_rank(records@[k]),
            r <= order@.len(),
            sorted@.len() == r,
            forall|k: int| 0 <= k < r ==> status_record(#[trigger] sorted@[k]) == status_record(records@[order@[k] as int]),
        decreases order@.len() - r,
    {
        let record = &records[order[r]];
        sorted.push(
            SuppressionStatusRegion {
                path: record.path.clone(),
                start_line: record.start_line,
                end_line: record.end_line,
                termination: record.termination,
                status: record.status,
            },
        );
        r = r + 1;
    }
    proof {
        assert forall|a: int, b: int| 0 <= a < b < sorted@.len() implies key_rank_le(
            text_bytes((#[trigger] sorted@[a]).path@),
            region_rank(sorted@[a]),
            text_bytes((#[trigger] sorted@[b]).path@),
            region_rank(sorted@[b]),
        ) by {
            let ia = order@[a] as int;
            let ib = order@[b] as int;
            assert(status_record(sorted@[a]) == status_record(records@[ia]));
            assert(status_record(sorted@[b]) == status_record(records@[ib]));
            assert(keys@[ia]@ == records@[ia].path@ && keys@[ib]@ == records@[ib].path@);
            assert(ranks@[ia] as int == region_rank(records@[ia]));
            assert(ranks@[ib] as int == region_rank(records@[ib]));
        }
        assert forall|k: int| 0 <= k < order@.len() implies status_record(#[trigger] sorted@[k]) == views[order@[k] as int] by {
            assert(status_record(sorted@[k]) == status_record(records@[order@[k] as int]));
        }
        assert(reorders(sorted@, views));
    }
    sorted
}

/// Counts the regions in total and by outcome.
fn summarize(regions: &Vec<SuppressionStatusRegion>) -> (summary: SuppressionSummary)
    ensures
        summary.total == regions@.len(),
        summary.active == count_status(regions@, SuppressionStatusKind::Active),
        summary.stale == count_status(regions@, SuppressionStatusKind::Stale),
{
    let mut summary = SuppressionSummary::default();
    let mut i: usize = 0;
    while i < regions.len()
        invariant
            i <= regions@.len(),
            summary.total == i,
            summary.active == count_status(regions@.take(i as int), SuppressionStatusKind::Active),
            summary.stale == count_status(regions@.take(i as int), SuppressionStatusKind::Stale),
            summary.active + summary.stale == i,
        decreases regions@.len() - i,
    {
        proof {
            assert(regions@.take(i + 1).drop_last() =~= regions@.take(i as int));
        }
        summary.total = summary.total + 1;
        match regions[i].status {
            SuppressionStatusKind::Active => {
                summary.active = summary.active + 1;
            },
            SuppressionStatusKind::Stale => {
                summary.stale = summary.stale + 1;
            },
        }
        i = i + 1;
    }
    proof {
        assert(regions@.take(i as int) =~= regions@);
    }
    summary
}

/// Occurrences of sound groups over numbered lines all map to source lines.
proof fn lemma_numbered_mapped(corpus: Corpus, groups: Seq<DuplicateGroup>, input: Seq<PreparedFile>)
    requires
        corpus.files@.to_multiset() == input.to_multiset(),
        lines_numbered(input),
        forall|k: int| 0 <= k < groups.len() ==> sound_group(corpus, #[trigger] groups[k]),
    ensures
        occurrences_mapped(corpus.files@, groups),
{
    corpus.files@.to_multiset_ensures();
    input.to_multiset_ensures();
    assert forall|g: int, k: int| 0 <= g < groups.len() && 0 <= k < groups[g].occurrences@.len() implies #[trigger] occurrence_span(
        corpus.files@,
        groups[g].occurrences@[k],
    ) is Some by {
        let o = groups[g].occurrences@[k];
        assert(sound_group(corpus, groups[g]));
        assert(o.normalized_len >= 1 && o.file < corpus.files@.len() && o.normalized_start + o.normalized_len
            <= corpus.files@[o.file as int].lines@.len());
        let f = corpus.files@[o.file as int];
        assert(corpus.files@.contains(f));
        assert(corpus.files@.to_multiset().count(f) > 0);
        assert(input.contains(f));
        let a = f.lines@[o.normalized_start as int];
        let b = f.lines@[o.normalized_start + o.normalized_len - 1];
        assert(a.source_line < u32::MAX);
        assert(b.source_line < u32::MAX);
    }
}

/// Audits the suppression regions of `prepared`: detects duplicates in the
/// files as if nothing were suppressed, and reports each region as active
/// when some duplicate occurrence reaches into it, stale otherwise.
pub fn build_suppression_status(
    prepared: Vec<AuditPreparedFile>,
    settings: &Settings,
    project_root: &str,
    ignore_files: bool,
    tool_version: String,
) -> (result: Result<SuppressionStatus, SuppressionAuditError>)
    ensures
        (result matches Err(e) && e is Corpus) <==> !corpus_accepts(audited_files(prepared@)),
        (result matches Err(e) && e == SuppressionAuditError::Detect(DetectError::InvalidMinLines)) <==> (
        corpus_accepts(audited_files(prepared@)) && settings.min_lines == 0),
        result matches Err(e) ==> (e is InvalidOccurrence ==> exists|corpus: Corpus, groups: Seq<DuplicateGroup>|
            audit_detection(audited_files(prepared@), *settings, corpus, groups) && exists|g: int, k: int|
                0 <= g < groups.len() && 0 <= k < groups[g].occurrences@.len() && occurrence_span(
                    corpus.files@,
                    #[trigger] groups[g].occurrences@[k],
                ) is None && e == invalid_occurrence(groups[g].occurrences@[k])),
        result matches Err(e) ==> e is Corpus || e == SuppressionAuditError::Detect(DetectError::InvalidMinLines)
            || e is InvalidOccurrence,
        corpus_accepts(audited_files(prepared@)) && settings.min_lines >= 1 && lines_numbered(audited_files(prepared@))
            ==> result is Ok,
        result matches Ok(status) ==> {
            &&& status.schema_version == SUPPRESSION_STATUS_SCHEMA_VERSION
            &&& status.tool_version@ == tool_version@
            &&& status.files == prepared@.len()
            &&& status.analysis.min_lines == settings.min_lines
            &&& status.analysis.ignore_comments == settings.ignore_comments
            &&& status.analysis.ignore_docstrings == settings.ignore_docstrings
            &&& status.analysis.ignore_imports == settings.ignore_imports
            &&& status.analysis.ignore_signatures == settings.ignore_signatures
            &&& status.analysis.same_file == settings.same_file
            &&& status.analysis.hidden == settings.hidden
            &&& status.analysis.exclude@.map_values(|s: String| s@) == settings.exclude@.map_values(|s: String| s@)
            &&& status.analysis.ignore_files == ignore_files
            &&& status.summary.total == status.regions@.len()
            &&& status.summary.active == count_status(status.regions@, SuppressionStatusKind::Active)
            &&& status.summary.stale == count_status(status.regions@, SuppressionStatusKind::Stale)
            &&& regions_sorted(status.regions@)
            &&& exists|corpus: Corpus, groups: Seq<DuplicateGroup>|
                {
                    &&& audit_detection(audited_files(prepared@), *settings, corpus, groups)
                    &&& occurrences_mapped(corpus.files@, groups)
                    &&& reorders(
                        status.regions@,
                        all_records(
                            corpus.files@,
                            groups,
                            audited_paths(prepared@),
                            audited_sets(prepared@),
                            project_root@,
                            prepared@.len() as int,
                        ),
                    )
                }
        },
{
    let ghost audited = prepared@;
    let file_count = prepared.len();
    let (files, sets) = split_audited(prepared);
    let paths = file_paths(&files);
    let ghost input = files@;
    let corpus = match build_corpus(files) {
        Ok(corpus) => corpus,
        Err(error) => {
            return Err(SuppressionAuditError::Corpus(error));
        },
    };
    let options = settings.detection_options();
    proof {
        assert(corpus.tokens@.len() <= u32::MAX);
    }
    let groups = match detect_duplicates(&corpus, options) {
        Ok(groups) => groups,
        Err(error) => {
            return Err(SuppressionAuditError::Detect(error));
        },
    };
    proof {
        if lines_numbered(audited_files(audited)) {
            lemma_numbered_mapped(corpus, groups@, input);
        }
    }
    proof {
        let views = paths@.map_values(|p: String| p@);
        assert(distinct_paths(views)) by {
            assert forall|a: int, b: int| 0 <= a < views.len() && 0 <= b < views.len() && a != b implies #[trigger] views[a] != #[trigger] views[b] by {
                if views[a] == views[b] {
                    assert(views[a] == input[a].path@ && views[b] == input[b].path@);
                    assert(file_key(input[a]) == file_key(input[b]));
                    assert(has_duplicate_path(input));
                }
            }
        }
        assert(views =~= audited_paths(audited));
        assert(sets@.map_values(|v: Vec<SuppressionRegion>| v@) =~= audited_sets(audited));
        assert(audit_detection(audited_files(audited), *settings, corpus, groups@));
    }
    let records = match suppression_records(&corpus.files, &paths, &sets, &groups, project_root) {
        Ok(records) => records,
        Err(error) => {
            return Err(error);
        },
    };
    let regions = sort_status_regions(&records);
    let summary = summarize(&regions);
    proof {
        let expected = all_records(
            corpus.files@,
            groups@,
            audited_paths(audited),
            audited_sets(audited),
            project_root@,
            audited.len() as int,
        );
        assert(records@.map_values(|r: SuppressionStatusRegion| status_record(r)) =~= expected);
        assert(reorders(regions@, expected));
    }
    let status = SuppressionStatus {
        schema_version: SUPPRESSION_STATUS_SCHEMA_VERSION,
        tool_version,
        files: file_count as u64,
        analysis: SuppressionAnalysis {
            min_lines: settings.min_lines,
            ignore_comments: settings.ignore_comments,
            ignore_docstrings: settings.ignore_docstrings,
            ignore_imports: settings.ignore_imports,
            ignore_signatures: settings.ignore_signatures,
            same_file: settings.same_file,
            hidden: settings.hidden,
            exclude: copy_strings(&settings.exclude),
            ignore_files,
        },
        summary,
        regions,
    };
    proof {
        assert(status.analysis.exclude@.map_values(|s: String| s@) =~= settings.exclude@.map_values(|s: String| s@));
    }
    Ok(status)
}

// ----------------------------------------------------------------------
// Text rendering.
/// The line reporting one region.
pub open spec fn status_line(r: SuppressionStatusRegion) -> Seq<char> {
    let state = match r.status {
        SuppressionStatusKind::Active => "active"@,
        SuppressionStatusKind::Stale => "stale"@,
    };
    let end = match r.end_line {
        Some(line) => decimal(line as nat),
        None => "EOF"@,
    };
    let termination = match r.termination {
        SuppressionTermination::Enable => "enable"@,
        SuppressionTermination::Eof => "eof"@,
    };
    state + ": "@ + r.path@ + ":"@ + decimal(r.start_line as nat) + "-"@ + end + " ("@ + termination
        + ")\n"@
}

/// The lines reporting `regions`, in order.
pub open spec fn status_lines(regions: Seq<SuppressionStatusRegion>) -> Seq<char>
    decreases regions.len(),
{
    if regions.len() == 0 {
        seq![]
    } else {
        status_lines(regions.drop_last()) + status_line(regions.last())
    }
}

/// The plain-text report of an audit: a heading, the counts, then one
/// line per region.
pub open spec fn status_text(status: SuppressionStatus) -> Seq<char> {
    "Suppression status\n"@ + "Files: "@ + decimal(status.files as nat) + "\n"@ + "Total suppressions: "@
        + decimal(status.summary.total as nat) + "\n"@ + "Active suppressions: "@ + decimal(
        status.summary.active as nat,
    ) + "\n"@ + "Stale suppressions: "@ + decimal(status.summary.stale as nat) + "\n"@ + status_lines(
        status.regions@,
    )
}

fn push_status_line(output: &mut String, r: &SuppressionStatusRegion)
    ensures
        final(output)@ == old(output)@ + status_line(*r),
{
    match r.status {
        SuppressionStatusKind::Active => output.append("active"),
        SuppressionStatusKind::Stale => output.append("stale"),
    }
    output.append(": ");
    output.append(r.path.as_str());
    output.append(":");
    push_decimal(output, r.start_line as u64);
    output.append("-");
    match r.end_line {
        Some(line) => push_decimal(output, line as u64),
        None => output.append("EOF"),
    }
    output.append(" (");
    match r.termination {
        SuppressionTermination::Enable => output.append("enable"),
        SuppressionTermination::Eof => output.append("eof"),
    }
    output.append(")\n");
}

/// Renders the audit as plain text.
pub fn render_suppression_status_text(status: &SuppressionStatus) -> (output: String)
    ensures
        output@ == status_text(*status),
{
    let mut output = String::new();
    output.append("Suppression status\n");
    output.append("Files: ");
    push_decimal(&mut output, status.files);
    output.append("\n");
    output.append("Total suppressions: ");
    push_decimal(&mut output, status.summary.total);
    output.append("\n");
    output.append("Active suppressions: ");
    push_decimal(&mut output, status.summary.active);
    output.append("\n");
    output.append("Stale suppressions: ");
    push_decimal(&mut output, status.summary.stale);
    output.append("\n");
    let ghost head = output@;
    let mut i: usize = 0;
    while i < status.regions.len()
        invariant
            i <= status.regions@.len(),
            output@ == head + status_lines(status.regions@.take(i as int)),
        decreases status.regions@.len() - i,
    {
        proof {
            assert(status.regions@.take(i + 1).drop_last() =~= status.regions@.take(i as int));
        }
        push_status_line(&mut output, &status.regions[i]);
        i = i + 1;
    }
    proof {
        assert(status.regions@.take(i as int) =~= status.regions@);
    }
    output
}

} // verus!
