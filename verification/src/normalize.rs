use std::ops::Range;
use vstd::prelude::*;
use vstd::utf8::encode_utf8;

use vstd::string::{StringExecFns, StringSliceAdditionalSpecFns};

use crate::analysis::{
    analysis_fits,
    at_char_boundary,
    range_fits,
    strip_bom,
    without_bom,
    PythonAnalysis,
    StructuralRegion,
    SuppressionEvent,
    SuppressionKind,
};
use crate::chars::{
    alphanumeric,
    char_index_table,
    char_pos,
    chars_of,
    is_alphanumeric,
    is_white_space,
    is_whitespace,
    lemma_char_pos_at_least,
    lemma_char_pos_monotone,
    lemma_char_pos_step,
    lemma_encode_concat,
    lemma_encode_len_at_least,
    lemma_encode_single,
    lemma_width_positive,
    trim_bounds,
    trim_chars,
    utf8_width,
};
use crate::format::push_char;
use crate::model::{NormalizedLine, NormalizedSegment, PreparedFile, StructuralContext, StructuralScope};
use crate::suppression::{derive_suppression_regions, lemma_physical_lines_bound, suppression_regions, SuppressionRegion};

verus! {

/// Whether suppression directives shape the normalized output.
#[derive(Debug, Clone, Copy, PartialEq, Eq, Structural)]
pub enum SuppressionMode {
    /// Suppressed source is dropped and each disable ends a segment.
    Apply,
    /// Everything is kept, as one run of lines.
    Audit,
}

/// A masked range `start..end` of character positions.
#[derive(Debug, Clone, Copy, PartialEq, Eq, Structural)]
pub struct CharRange {
    pub start: usize,
    pub end: usize,
}

/// A directive at character position `offset`.
#[derive(Debug, Clone, Copy, PartialEq, Eq, Structural)]
pub struct CharEvent {
    pub offset: usize,
    pub kind: SuppressionKind,
}

/// A statement covering character positions `start..end`, with its length
/// in bytes, which decides which of two nested statements is the inner one.
#[derive(Debug, Clone, Copy, PartialEq, Eq, Structural)]
pub struct CharRegion {
    pub start: usize,
    pub end: usize,
    pub byte_len: usize,
    pub context: StructuralContext,
    pub scope: StructuralScope,
}

// ----------------------------------------------------------------------
// Physical lines.
/// Where the physical line starting at `start` ends: just past its `\n`,
/// or at the end of the source.
pub open spec fn line_end(s: Seq<char>, start: int) -> int
    decreases s.len() - start,
{
    if start >= s.len() {
        s.len() as int
    } else if s[start] == '\n' {
        start + 1
    } else {
        line_end(s, start + 1)
    }
}

pub proof fn lemma_line_end(s: Seq<char>, start: int)
    requires
        0 <= start < s.len(),
    ensures
        start < line_end(s, start) <= s.len(),
        forall|k: int| start <= k < line_end(s, start) - 1 ==> s[k] != '\n',
        line_end(s, start) < s.len() ==> s[line_end(s, start) - 1] == '\n',
        line_end(s, start) == s.len() && s[s.len() - 1] != '\n' ==> forall|k: int|
            start <= k < s.len() ==> s[k] != '\n',
    decreases s.len() - start,
{
    reveal_with_fuel(line_end, 2);
    if s[start] != '\n' && start + 1 < s.len() {
        lemma_line_end(s, start + 1);
    }
}

/// End of the content of line `start..end`: without its `\n`, then
/// without a `\r` before it.
pub open spec fn content_end(s: Seq<char>, start: int, end: int) -> int {
    let e = if end > start && s[end - 1] == '\n' {
        end - 1
    } else {
        end
    };
    if e > start && s[e - 1] == '\r' {
        e - 1
    } else {
        e
    }
}

// ----------------------------------------------------------------------
// Masks.
/// Position `p` lies inside a mask.
pub open spec fn masked(masks: Seq<CharRange>, p: int) -> bool {
    exists|k: int| 0 <= k < masks.len() && masks[k].start <= p < #[trigger] masks[k].end
}

/// Characters of `s` in `from..to` that no mask covers, in order.
pub open spec fn retained_chars(s: Seq<char>, masks: Seq<CharRange>, from: int, to: int) -> Seq<char>
    decreases to - from,
{
    if to <= from {
        seq![]
    } else {
        retained_chars(s, masks, from, to - 1) + if masked(masks, to - 1) {
            seq![]
        } else {
            seq![s[to - 1]]
        }
    }
}

/// Text of a line whose content is `start..end`: the unmasked characters,
/// trimmed.
pub open spec fn line_text(s: Seq<char>, masks: Seq<CharRange>, start: int, end: int) -> Seq<char> {
    trim_chars(retained_chars(s, masks, start, end))
}

/// A line carries substance: it holds an identifier character.
pub open spec fn effective_text(text: Seq<char>) -> bool {
    exists|k: int| 0 <= k < text.len() && (text[k] == '_' || alphanumeric(#[trigger] text[k]))
}

// ----------------------------------------------------------------------
// Structural classification.
pub open spec fn region_contains(r: CharRegion, p: int) -> bool {
    r.start <= p < r.end
}

/// Index of the innermost of the first `n` regions containing `p`: the
/// shortest in bytes, the first of equally short ones.
pub open spec fn innermost(regions: Seq<CharRegion>, p: int, n: int) -> Option<int>
    decreases n,
{
    if n <= 0 {
        None
    } else {
        let best = innermost(regions, p, n - 1);
        if region_contains(regions[n - 1], p) {
            match best {
                None => Some(n - 1),
                Some(b) => if regions[n - 1].byte_len < regions[b].byte_len {
                    Some(n - 1)
                } else {
                    best
                },
            }
        } else {
            best
        }
    }
}

/// Context and scope of the code at position `p`: those of the innermost
/// statement there, executable module code outside every statement.
pub open spec fn position_class(regions: Seq<CharRegion>, p: int) -> (StructuralContext, StructuralScope) {
    match innermost(regions, p, regions.len() as int) {
        Some(k) => (regions[k].context, regions[k].scope),
        None => (StructuralContext::Executable, StructuralScope::Module),
    }
}

pub open spec fn scope_rank(scope: StructuralScope) -> int {
    match scope {
        StructuralScope::Module => 0,
        StructuralScope::Class => 1,
        StructuralScope::Function => 2,
    }
}

/// Contexts seen so far joined with `c`: one context, or mixed.
pub open spec fn join_context(seen: Option<StructuralContext>, c: StructuralContext) -> Option<StructuralContext> {
    match seen {
        None => Some(c),
        Some(current) => if current == c {
            Some(current)
        } else {
            Some(StructuralContext::Mixed)
        },
    }
}

/// Scopes seen so far joined with `scope`: the most specific one.
pub open spec fn join_scope(seen: Option<StructuralScope>, scope: StructuralScope) -> Option<StructuralScope> {
    match seen {
        None => Some(scope),
        Some(current) => if scope_rank(scope) > scope_rank(current) {
            Some(scope)
        } else {
            Some(current)
        },
    }
}

/// Classes of the unmasked, non-whitespace positions in `from..to`, joined.
pub open spec fn class_scan(
    s: Seq<char>,
    masks: Seq<CharRange>,
    regions: Seq<CharRegion>,
    from: int,
    to: int,
) -> (Option<StructuralContext>, Option<StructuralScope>)
    decreases to - from,
{
    if to <= from {
        (None, None)
    } else {
        let seen = class_scan(s, masks, regions, from, to - 1);
        let p = to - 1;
        if !masked(masks, p) && !is_white_space(s[p]) {
            let (c, scope) = position_class(regions, p);
            (join_context(seen.0, c), join_scope(seen.1, scope))
        } else {
            seen
        }
    }
}

/// Context and scope of a line whose content is `start..end`.
pub open spec fn line_class(
    s: Seq<char>,
    masks: Seq<CharRange>,
    regions: Seq<CharRegion>,
    start: int,
    end: int,
) -> (StructuralContext, StructuralScope) {
    let (c, scope) = class_scan(s, masks, regions, start, end);
    (
        match c {
            Some(c) => c,
            None => StructuralContext::Executable,
        },
        match scope {
            Some(scope) => scope,
            None => StructuralScope::Module,
        },
    )
}

// ----------------------------------------------------------------------
// Normalization, physical line by physical line.
/// What normalization has produced after some physical lines.
pub struct NormalizeProgress {
    /// Retained line texts, each followed by `\n`.
    pub normalized: Seq<char>,
    pub lines: Seq<NormalizedLine>,
    pub segments: Seq<NormalizedSegment>,
    /// A disable directive is in force.
    pub disabled: bool,
    /// First line of the segment being built, if it has one.
    pub segment_start: Option<u32>,
    /// Index of the first directive not yet taken into account.
    pub next_event: int,
    /// Zero-based number of the next physical line.
    pub line_number: int,
}

/// Ends the segment being built at line `count`, keeping it when it is
/// not empty.
pub open spec fn close_segment(
    segments: Seq<NormalizedSegment>,
    segment_start: Option<u32>,
    count: int,
) -> Seq<NormalizedSegment> {
    match segment_start {
        Some(start) => if start < count {
            segments.push(NormalizedSegment { start, end: count as u32 })
        } else {
            segments
        },
        None => segments,
    }
}

/// Takes the directives before position `end`, from `p.next_event` on, in
/// order: a disable while enabled ends the segment and disables, an enable
/// while disabled enables, any other does nothing.
pub open spec fn take_events(events: Seq<CharEvent>, end: int, p: NormalizeProgress) -> NormalizeProgress
    decreases events.len() - p.next_event,
{
    if p.next_event < 0 || p.next_event >= events.len() || events[p.next_event].offset >= end {
        p
    } else {
        let event = events[p.next_event];
        let q = match (p.disabled, event.kind) {
            (false, SuppressionKind::Disable) => NormalizeProgress {
                segments: close_segment(p.segments, p.segment_start, p.lines.len() as int),
                segment_start: None,
                disabled: true,
                ..p
            },
            (true, SuppressionKind::Enable) => NormalizeProgress { disabled: false, ..p },
            _ => p,
        };
        take_events(events, end, NormalizeProgress { next_event: p.next_event + 1, ..q })
    }
}

/// Emits the line whose content is `start..end`, when its text is not
/// empty.
pub open spec fn emit_line(
    s: Seq<char>,
    masks: Seq<CharRange>,
    regions: Seq<CharRegion>,
    start: int,
    end: int,
    p: NormalizeProgress,
) -> NormalizeProgress {
    let text = line_text(s, masks, start, end);
    if text.len() == 0 {
        p
    } else {
        let offset = encode_utf8(p.normalized).len();
        let (context, scope) = line_class(s, masks, regions, start, end);
        let line = NormalizedLine {
            text_range: Range { start: offset as u32, end: (offset + encode_utf8(text).len()) as u32 },
            source_line: p.line_number as u32,
            effective: effective_text(text),
            context,
            scope,
        };
        NormalizeProgress {
            normalized: p.normalized + text + seq!['\n'],
            lines: p.lines.push(line),
            segment_start: match p.segment_start {
                Some(first) => Some(first),
                None => Some(p.lines.len() as u32),
            },
            ..p
        }
    }
}

/// One physical line `start..end`: its text unless suppression hides it,
/// then, when directives apply, the directives before its end.
pub open spec fn normalize_line(
    s: Seq<char>,
    masks: Seq<CharRange>,
    events: Seq<CharEvent>,
    regions: Seq<CharRegion>,
    mode: SuppressionMode,
    start: int,
    end: int,
    p: NormalizeProgress,
) -> NormalizeProgress {
    let apply = mode == SuppressionMode::Apply;
    let emitted = if !apply || !p.disabled {
        emit_line(s, masks, regions, start, content_end(s, start, end), p)
    } else {
        p
    };
    let taken = if apply {
        take_events(events, end, emitted)
    } else {
        emitted
    };
    NormalizeProgress { line_number: p.line_number + 1, ..taken }
}

/// Normalizes the physical lines from position `from` on, starting from
/// progress `p`.
pub open spec fn normalize_from(
    s: Seq<char>,
    masks: Seq<CharRange>,
    events: Seq<CharEvent>,
    regions: Seq<CharRegion>,
    mode: SuppressionMode,
    from: int,
    p: NormalizeProgress,
) -> NormalizeProgress
    decreases s.len() - from,
{
    if from < 0 || from >= s.len() {
        p
    } else {
        proof {
            lemma_line_end(s, from);
        }
        let end = line_end(s, from);
        normalize_from(s, masks, events, regions, mode, end, normalize_line(s, masks, events, regions, mode, from, end, p))
    }
}

/// The progress before the first line.
pub open spec fn initial_progress() -> NormalizeProgress {
    NormalizeProgress {
        normalized: seq![],
        lines: seq![],
        segments: seq![],
        disabled: false,
        segment_start: None,
        next_event: 0,
        line_number: 0,
    }
}

/// Normalized text, lines and segments of the source `s`.
pub open spec fn normalized(
    s: Seq<char>,
    masks: Seq<CharRange>,
    events: Seq<CharEvent>,
    regions: Seq<CharRegion>,
    mode: SuppressionMode,
) -> (Seq<char>, Seq<NormalizedLine>, Seq<NormalizedSegment>) {
    let last = normalize_from(s, masks, events, regions, mode, 0, initial_progress());
    (last.normalized, last.lines, close_segment(last.segments, last.segment_start, last.lines.len() as int))
}

// ----------------------------------------------------------------------
// What normalization needs of its inputs.
/// Masks are non-empty-or-empty ranges in increasing order, apart from one
/// another.
pub open spec fn masks_ordered(masks: Seq<CharRange>) -> bool {
    &&& forall|k: int| 0 <= k < masks.len() ==> (#[trigger] masks[k]).start <= masks[k].end
    &&& forall|a: int, b: int| 0 <= a < b < masks.len() ==> (#[trigger] masks[a]).end < (#[trigger] masks[b]).start
}

/// Directives in source order.
pub open spec fn events_ordered(events: Seq<CharEvent>) -> bool {
    forall|a: int, b: int| 0 <= a < b < events.len() ==> (#[trigger] events[a]).offset <= (#[trigger] events[b]).offset
}

/// Statements ordered by start.
pub open spec fn regions_ordered(regions: Seq<CharRegion>) -> bool {
    forall|a: int, b: int| 0 <= a < b < regions.len() ==> (#[trigger] regions[a]).start <= (#[trigger] regions[b]).start
}

/// End of the physical line starting at `start` and the end of its
/// content.
fn line_bounds(chars: &Vec<char>, start: usize) -> (bounds: (usize, usize))
    requires
        start < chars@.len(),
    ensures
        bounds.0 == line_end(chars@, start as int),
        bounds.1 == content_end(chars@, start as int, bounds.0 as int),
{
    let n = chars.len();
    let mut i = start;
    while i < n && chars[i] != '\n'
        invariant
            start <= i <= n == chars@.len(),
            line_end(chars@, start as int) == line_end(chars@, i as int),
        decreases n - i,
    {
        i = i + 1;
    }
    let end = if i < n {
        i + 1
    } else {
        i
    };
    let mut content = end;
    if content > start && chars[content - 1] == '\n' {
        content = content - 1;
    }
    if content > start && chars[content - 1] == '\r' {
        content = content - 1;
    }
    (end, content)
}

/// Whether position `p` is masked, moving `next` past the masks that end
/// at or before `p`.
fn mask_covers(masks: &Vec<CharRange>, next: &mut usize, p: usize) -> (covered: bool)
    requires
        masks_ordered(masks@),
        *old(next) <= masks@.len(),
        forall|k: int| 0 <= k < *old(next) ==> (#[trigger] masks@[k]).end <= p,
    ensures
        covered == masked(masks@, p as int),
        *old(next) <= *final(next) <= masks@.len(),
        forall|k: int| 0 <= k < *final(next) ==> (#[trigger] masks@[k]).end <= p,
{
    while *next < masks.len() && masks[*next].end <= p
        invariant
            masks_ordered(masks@),
            *old(next) <= *next <= masks@.len(),
            forall|k: int| 0 <= k < *next ==> (#[trigger] masks@[k]).end <= p,
        decreases masks@.len() - *next,
    {
        *next = *next + 1;
    }
    let covered = *next < masks.len() && masks[*next].start <= p;
    proof {
        let m = masks@;
        let i = *next as int;
        if covered {
            assert(m[i].start <= p < m[i].end);
        } else {
            assert forall|k: int| 0 <= k < m.len() implies !(m[k].start <= p < #[trigger] m[k].end) by {
                if k > i {
                    assert(m[i].end < m[k].start);
                    assert(m[i].start <= m[i].end);
                }
            }
        }
    }
    covered
}

/// `active` lists, in increasing order, the statements that may contain a
/// position of the content `start..end`: every statement among the first
/// `scanned`, all of which start before `end`, that reaches past `start`.
pub open spec fn active_regions(regions: Seq<CharRegion>, active: Seq<usize>, scanned: int, start: int, end: int) -> bool {
    &&& 0 <= scanned <= regions.len()
    &&& forall|i: int| 0 <= i < scanned ==> (#[trigger] regions[i]).start < end
    &&& forall|i: int| scanned <= i < regions.len() ==> (#[trigger] regions[i]).start >= end
    &&& forall|a: int, b: int| 0 <= a < b < active.len() ==> #[trigger] active[a] < #[trigger] active[b]
    &&& forall|k: int| 0 <= k < active.len() ==> #[trigger] active[k] < scanned
    &&& forall|i: int| 0 <= i < scanned && (#[trigger] regions[i]).end > start ==> active.contains(i as usize)
}

/// Brings the statements in `active` up to the line whose content is
/// `start..end`.
fn update_active(
    regions: &Vec<CharRegion>,
    scanned: &mut usize,
    active: &mut Vec<usize>,
    start: usize,
    end: usize,
)
    requires
        regions_ordered(regions@),
        *old(scanned) <= regions@.len(),
        forall|i: int| 0 <= i < *old(scanned) ==> (#[trigger] regions@[i]).start < end,
        forall|a: int, b: int| 0 <= a < b < old(active)@.len() ==> #[trigger] old(active)@[a] < #[trigger] old(active)@[b],
        forall|k: int| 0 <= k < old(active)@.len() ==> #[trigger] old(active)@[k] < *old(scanned),
        forall|i: int| 0 <= i < *old(scanned) && (#[trigger] regions@[i]).end > start ==> old(active)@.contains(i as usize),
    ensures
        active_regions(regions@, final(active)@, *final(scanned) as int, start as int, end as int),
{
    let mut kept: Vec<usize> = Vec::new();
    let mut k: usize = 0;
    while k < active.len()
        invariant
            k <= active@.len(),
            forall|a: int, b: int| 0 <= a < b < active@.len() ==> #[trigger] active@[a] < #[trigger] active@[b],
            forall|j: int| 0 <= j < active@.len() ==> #[trigger] active@[j] < *scanned,
            *scanned <= regions@.len(),
            forall|a: int, b: int| 0 <= a < b < kept@.len() ==> #[trigger] kept@[a] < #[trigger] kept@[b],
            forall|j: int| 0 <= j < kept@.len() ==> #[trigger] kept@[j] < *scanned,
            k == 0 ==> kept@.len() == 0,
            k > 0 ==> forall|j: int| 0 <= j < kept@.len() ==> #[trigger] kept@[j] <= active@[k - 1],
            forall|j: int| 0 <= j < k && (#[trigger] regions@[active@[j] as int]).end > start ==> kept@.contains(active@[j]),
        decreases active@.len() - k,
    {
        let index = active[k];
        let ghost before = kept@;
        if regions[index].end > start {
            kept.push(index);
            proof {
                assert forall|a: int, b: int| 0 <= a < b < kept@.len() implies #[trigger] kept@[a] < #[trigger] kept@[b] by {
                    if b == kept@.len() - 1 {
                        assert(kept@[a] == before[a]);
                        assert(before[a] <= active@[k - 1]);
                        assert(active@[k - 1] < active@[k as int]);
                    } else {
                        assert(kept@[a] == before[a] && kept@[b] == before[b]);
                    }
                }
                assert forall|j: int| 0 <= j < k + 1 && (#[trigger] regions@[active@[j] as int]).end > start implies kept@.contains(active@[j]) by {
                    if j < k {
                        assert(before.contains(active@[j]));
                        let w = choose|w: int| 0 <= w < before.len() && before[w] == active@[j];
                        assert(kept@[w] == active@[j]);
                    } else {
                        assert(kept@[kept@.len() - 1] == active@[j]);
                    }
                }
                assert forall|j: int| 0 <= j < kept@.len() implies #[trigger] kept@[j] <= active@[k as int] by {
                    if j < before.len() {
                        assert(kept@[j] == before[j]);
                        assert(active@[k - 1] < active@[k as int]);
                    }
                }
            }
        } else {
            proof {
                assert forall|j: int| 0 <= j < kept@.len() implies #[trigger] kept@[j] <= active@[k as int] by {
                    assert(active@[k - 1] < active@[k as int]);
                }
            }
        }
        k = k + 1;
    }
    proof {
        assert forall|i: int| 0 <= i < *scanned && (#[trigger] regions@[i]).end > start implies kept@.contains(i as usize) by {
            assert(active@.contains(i as usize));
            let j = choose|j: int| 0 <= j < active@.len() && active@[j] == i as usize;
            assert(regions@[active@[j] as int].end > start);
        }
    }
    *active = kept;
    while *scanned < regions.len() && regions[*scanned].start < end
        invariant
            regions_ordered(regions@),
            *scanned <= regions@.len(),
            forall|i: int| 0 <= i < *scanned ==> (#[trigger] regions@[i]).start < end,
            forall|a: int, b: int| 0 <= a < b < active@.len() ==> #[trigger] active@[a] < #[trigger] active@[b],
            forall|k: int| 0 <= k < active@.len() ==> #[trigger] active@[k] < *scanned,
            forall|i: int| 0 <= i < *scanned && (#[trigger] regions@[i]).end > start ==> active@.contains(i as usize),
        decreases regions@.len() - *scanned,
    {
        if regions[*scanned].end > start {
            let ghost before = active@;
            active.push(*scanned);
            proof {
                assert forall|i: int| 0 <= i < *scanned + 1 && (#[trigger] regions@[i]).end > start implies active@.contains(i as usize) by {
                    if i < *scanned {
                        let w = choose|w: int| 0 <= w < before.len() && before[w] == i as usize;
                        assert(active@[w] == i as usize);
                    } else {
                        assert(active@[active@.len() - 1] == i as usize);
                    }
                }
            }
        }
        *scanned = *scanned + 1;
    }
    proof {
        assert forall|i: int| *scanned <= i < regions@.len() implies (#[trigger] regions@[i]).start >= end by {
            if i > *scanned {
                assert(regions@[*scanned as int].start <= regions@[i].start);
            }
        }
    }
}

/// Positions in `from..to` lie in no region.
proof fn lemma_innermost_skip(regions: Seq<CharRegion>, p: int, from: int, to: int)
    requires
        0 <= from <= to <= regions.len(),
        forall|i: int| from <= i < to ==> !region_contains(#[trigger] regions[i], p),
    ensures
        innermost(regions, p, to) == innermost(regions, p, from),
    decreases to - from,
{
    if from < to {
        lemma_innermost_skip(regions, p, from, to - 1);
    }
}

pub proof fn lemma_innermost_range(regions: Seq<CharRegion>, p: int, n: int)
    requires
        0 <= n <= regions.len(),
    ensures
        innermost(regions, p, n) matches Some(b) ==> 0 <= b < n && region_contains(regions[b], p),
    decreases n,
{
    if n > 0 {
        lemma_innermost_range(regions, p, n - 1);
    }
}

/// Context and scope of the code at position `p`.
fn class_at(regions: &Vec<CharRegion>, active: &Vec<usize>, p: usize) -> (class: (StructuralContext, StructuralScope))
    requires
        forall|a: int, b: int| 0 <= a < b < active@.len() ==> #[trigger] active@[a] < #[trigger] active@[b],
        forall|k: int| 0 <= k < active@.len() ==> #[trigger] active@[k] < regions@.len(),
        forall|i: int| 0 <= i < regions@.len() && region_contains(#[trigger] regions@[i], p as int) ==> active@.contains(i as usize),
    ensures
        class == position_class(regions@, p as int),
{
    let n = regions.len();
    let mut best: Option<usize> = None;
    let mut bound: usize = 0;
    let mut k: usize = 0;
    while k < active.len()
        invariant
            n == regions@.len(),
            forall|a: int, b: int| 0 <= a < b < active@.len() ==> #[trigger] active@[a] < #[trigger] active@[b],
            forall|j: int| 0 <= j < active@.len() ==> #[trigger] active@[j] < regions@.len(),
            forall|i: int| 0 <= i < regions@.len() && region_contains(#[trigger] regions@[i], p as int) ==> active@.contains(i as usize),
            k <= active@.len(),
            bound <= regions@.len(),
            k == 0 ==> bound == 0,
            k > 0 ==> bound == active@[k - 1] + 1,
            match best {
                Some(b) => b < bound && innermost(regions@, p as int, bound as int) == Some(b as int),
                None => innermost(regions@, p as int, bound as int) is None,
            },
        decreases active@.len() - k,
    {
        let index = active[k];
        proof {
            assert(index < regions@.len());
            assert forall|i: int| bound <= i < index implies !region_contains(#[trigger] regions@[i], p as int) by {
                if region_contains(regions@[i], p as int) {
                    assert(active@.contains(i as usize));
                    let w = choose|w: int| 0 <= w < active@.len() && active@[w] == i as usize;
                    if w < k {
                        if w < k - 1 {
                            assert(active@[w] < active@[k - 1]);
                        }
                    } else if w > k {
                        assert(active@[k as int] < active@[w]);
                    }
                }
            }
            lemma_innermost_skip(regions@, p as int, bound as int, index as int);
        }
        let region = regions[index];
        if region.start <= p && p < region.end {
            match best {
                None => {
                    best = Some(index);
                },
                Some(b) => {
                    if region.byte_len < regions[b].byte_len {
                        best = Some(index);
                    }
                },
            }
        }
        bound = index + 1;
        k = k + 1;
    }
    proof {
        assert(k == active@.len());
        assert forall|i: int| bound <= i < regions@.len() implies !region_contains(#[trigger] regions@[i], p as int) by {
            if region_contains(regions@[i], p as int) {
                assert(active@.contains(i as usize));
                let w = choose|w: int| 0 <= w < active@.len() && active@[w] == i as usize;
                assert(k > 0);
                if w < k - 1 {
                    assert(active@[w] < active@[k - 1]);
                } else {
                    assert(w == k - 1);
                }
                assert(active@[w] <= active@[k - 1]);
                assert(i < bound);
            }
        }
        lemma_innermost_skip(regions@, p as int, bound as int, regions@.len() as int);
    }
    match best {
        Some(b) => (regions[b].context, regions[b].scope),
        None => (StructuralContext::Executable, StructuralScope::Module),
    }
}

fn join_context_exec(seen: Option<StructuralContext>, c: StructuralContext) -> (joined: Option<StructuralContext>)
    ensures
        joined == join_context(seen, c),
{
    match seen {
        None => Some(c),
        Some(current) => if current == c {
            Some(current)
        } else {
            Some(StructuralContext::Mixed)
        },
    }
}

fn scope_rank_exec(scope: StructuralScope) -> (rank: u8)
    ensures
        rank as int == scope_rank(scope),
{
    match scope {
        StructuralScope::Module => 0,
        StructuralScope::Class => 1,
        StructuralScope::Function => 2,
    }
}

fn join_scope_exec(seen: Option<StructuralScope>, scope: StructuralScope) -> (joined: Option<StructuralScope>)
    ensures
        joined == join_scope(seen, scope),
{
    match seen {
        None => Some(scope),
        Some(current) => if scope_rank_exec(scope) > scope_rank_exec(current) {
            Some(scope)
        } else {
            Some(current)
        },
    }
}

/// Encoding a subrange takes no more bytes than encoding the whole.
proof fn lemma_encode_subrange_len(t: Seq<char>, a: int, b: int)
    requires
        0 <= a <= b <= t.len(),
    ensures
        encode_utf8(t.subrange(a, b)).len() <= encode_utf8(t).len(),
{
    assert(t =~= t.take(a) + (t.subrange(a, b) + t.skip(b)));
    lemma_encode_concat(t.take(a), t.subrange(a, b) + t.skip(b));
    lemma_encode_concat(t.subrange(a, b), t.skip(b));
}

/// The unmasked characters of the content `start..end` and the joined
/// classes of its unmasked non-whitespace positions.
fn scan_line(
    chars: &Vec<char>,
    masks: &Vec<CharRange>,
    next_mask: &mut usize,
    regions: &Vec<CharRegion>,
    active: &Vec<usize>,
    Ghost(scanned): Ghost<int>,
    start: usize,
    end: usize,
) -> (scan: (Vec<char>, Option<StructuralContext>, Option<StructuralScope>))
    requires
        start <= end <= chars@.len(),
        masks_ordered(masks@),
        *old(next_mask) <= masks@.len(),
        forall|k: int| 0 <= k < *old(next_mask) ==> (#[trigger] masks@[k]).end <= start,
        active_regions(regions@, active@, scanned, start as int, end as int),
    ensures
        scan.0@ == retained_chars(chars@, masks@, start as int, end as int),
        (scan.1, scan.2) == class_scan(chars@, masks@, regions@, start as int, end as int),
        encode_utf8(scan.0@).len() <= char_pos(chars@, end as int) - char_pos(chars@, start as int),
        *old(next_mask) <= *final(next_mask) <= masks@.len(),
        forall|k: int| 0 <= k < *final(next_mask) ==> (#[trigger] masks@[k]).end <= end,
{
    let ghost s = chars@;
    let mut retained: Vec<char> = Vec::new();
    let mut context: Option<StructuralContext> = None;
    let mut scope: Option<StructuralScope> = None;
    let mut p = start;
    proof {
        assert(encode_utf8(Seq::<char>::empty()) =~= Seq::<u8>::empty());
        assert(retained@ =~= Seq::<char>::empty());
    }
    while p < end
        invariant
            s == chars@,
            start <= p <= end <= s.len(),
            masks_ordered(masks@),
            *old(next_mask) <= *next_mask <= masks@.len(),
            forall|k: int| 0 <= k < *next_mask ==> (#[trigger] masks@[k]).end <= p,
            active_regions(regions@, active@, scanned, start as int, end as int),
            retained@ == retained_chars(s, masks@, start as int, p as int),
            (context, scope) == class_scan(s, masks@, regions@, start as int, p as int),
            encode_utf8(retained@).len() <= char_pos(s, p as int) - char_pos(s, start as int),
        decreases end - p,
    {
        let covered = mask_covers(masks, next_mask, p);
        proof {
            lemma_char_pos_step(s, p as int);
        }
        if !covered {
            let c = chars[p];
            let ghost before = retained@;
            retained.push(c);
            proof {
                assert(retained@ == before + seq![c]);
                lemma_encode_concat(before, seq![c]);
                lemma_encode_single(c);
            }
            if !is_whitespace(c) {
                proof {
                    assert forall|i: int| 0 <= i < regions@.len() && region_contains(#[trigger] regions@[i], p as int) implies active@.contains(i as usize) by {
                        if i >= scanned {
                            assert(regions@[i].start >= end);
                        }
                    }
                }
                let (c_class, s_class) = class_at(regions, active, p);
                context = join_context_exec(context, c_class);
                scope = join_scope_exec(scope, s_class);
            }
        }
        proof {
            assert(retained_chars(s, masks@, start as int, p + 1) == retained_chars(s, masks@, start as int, p as int) + if masked(masks@, p as int) {
                seq![]
            } else {
                seq![s[p as int]]
            });
            if covered {
                assert(retained@ =~= retained_chars(s, masks@, start as int, p + 1));
            }
        }
        p = p + 1;
    }
    (retained, context, scope)
}

/// Ends the segment being built at line `count`.
fn close_segment_exec(segments: &mut Vec<NormalizedSegment>, segment_start: &mut Option<u32>, count: usize)
    requires
        count <= u32::MAX,
    ensures
        final(segments)@ == close_segment(old(segments)@, *old(segment_start), count as int),
        *final(segment_start) is None,
{
    match *segment_start {
        Some(start) => {
            if (start as usize) < count {
                segments.push(NormalizedSegment { start, end: count as u32 });
            }
        },
        None => {},
    }
    *segment_start = None;
}

/// The progress that the mutable state of normalization stands for.
pub open spec fn progress_of(
    normalized: Seq<char>,
    lines: Seq<NormalizedLine>,
    segments: Seq<NormalizedSegment>,
    disabled: bool,
    segment_start: Option<u32>,
    next_event: int,
    line_number: int,
) -> NormalizeProgress {
    NormalizeProgress { normalized, lines, segments, disabled, segment_start, next_event, line_number }
}

/// Takes the directives before position `end` into account.
fn take_events_exec(
    events: &Vec<CharEvent>,
    end: usize,
    next_event: &mut usize,
    disabled: &mut bool,
    segments: &mut Vec<NormalizedSegment>,
    segment_start: &mut Option<u32>,
    Ghost(p): Ghost<NormalizeProgress>,
    line_count: usize,
)
    requires
        *old(next_event) <= events@.len(),
        line_count <= u32::MAX,
        p == progress_of(p.normalized, p.lines, old(segments)@, *old(disabled), *old(segment_start), *old(next_event) as int, p.line_number),
        p.lines.len() == line_count,
    ensures
        *old(next_event) <= *final(next_event) <= events@.len(),
        take_events(events@, end as int, p) == progress_of(
            p.normalized,
            p.lines,
            final(segments)@,
            *final(disabled),
            *final(segment_start),
            *final(next_event) as int,
            p.line_number,
        ),
{
    while *next_event < events.len() && events[*next_event].offset < end
        invariant
            *old(next_event) <= *next_event <= events@.len(),
            line_count <= u32::MAX,
            p.lines.len() == line_count,
            take_events(events@, end as int, p) == take_events(
                events@,
                end as int,
                progress_of(p.normalized, p.lines, segments@, *disabled, *segment_start, *next_event as int, p.line_number),
            ),
        decreases events@.len() - *next_event,
    {
        let event = events[*next_event];
        let ghost cur = progress_of(p.normalized, p.lines, segments@, *disabled, *segment_start, *next_event as int, p.line_number);
        match (*disabled, event.kind) {
            (false, SuppressionKind::Disable) => {
                close_segment_exec(segments, segment_start, line_count);
                *disabled = true;
            },
            (true, SuppressionKind::Enable) => {
                *disabled = false;
            },
            _ => {},
        }
        *next_event = *next_event + 1;
        proof {
            assert(take_events(events@, end as int, cur) == take_events(
                events@,
                end as int,
                progress_of(p.normalized, p.lines, segments@, *disabled, *segment_start, *next_event as int, p.line_number),
            ));
        }
    }
}

/// Emits the line whose content is `start..end` when its text is not empty.
fn emit_line_exec(
    chars: &Vec<char>,
    masks: &Vec<CharRange>,
    next_mask: &mut usize,
    regions: &Vec<CharRegion>,
    active: &Vec<usize>,
    Ghost(scanned): Ghost<int>,
    start: usize,
    end: usize,
    line_number: usize,
    normalized: &mut String,
    lines: &mut Vec<NormalizedLine>,
    segment_start: &mut Option<u32>,
    Ghost(p): Ghost<NormalizeProgress>,
)
    requires
        start <= end <= chars@.len(),
        masks_ordered(masks@),
        *old(next_mask) <= masks@.len(),
        forall|k: int| 0 <= k < *old(next_mask) ==> (#[trigger] masks@[k]).end <= start,
        active_regions(regions@, active@, scanned, start as int, end as int),
        p == progress_of(
            old(normalized)@,
            old(lines)@,
            p.segments,
            p.disabled,
            *old(segment_start),
            p.next_event,
            line_number as int,
        ),
        encode_utf8(old(normalized)@).len() <= char_pos(chars@, start as int),
        char_pos(chars@, end as int) < u32::MAX,
        line_number <= u32::MAX,
        old(lines)@.len() <= u32::MAX,
    ensures
        emit_line(chars@, masks@, regions@, start as int, end as int, p) == progress_of(
            final(normalized)@,
            final(lines)@,
            p.segments,
            p.disabled,
            *final(segment_start),
            p.next_event,
            line_number as int,
        ),
        encode_utf8(final(normalized)@).len() <= char_pos(chars@, end as int) + 1,
        final(lines)@.len() <= old(lines)@.len() + 1,
        *old(next_mask) <= *final(next_mask) <= masks@.len(),
        forall|k: int| 0 <= k < *final(next_mask) ==> (#[trigger] masks@[k]).end <= end,
{
    let (retained, context, scope) = scan_line(chars, masks, next_mask, regions, active, Ghost(scanned), start, end);
    let (a, b) = trim_bounds(&retained);
    let ghost text = retained@.subrange(a as int, b as int);
    proof {
        lemma_encode_subrange_len(retained@, a as int, b as int);
        lemma_char_pos_monotone(chars@, start as int, end as int);
    }
    if a == b {
        proof {
            assert(line_text(chars@, masks@, start as int, end as int).len() == 0);
            lemma_char_pos_monotone(chars@, start as int, end as int);
        }
        return;
    }
    let ghost before = normalized@;
    let offset = normalized.as_str().len();
    let mut effective = false;
    let mut i = a;
    while i < b
        invariant
            a <= i <= b <= retained@.len(),
            text == retained@.subrange(a as int, b as int),
            normalized@ == before + retained@.subrange(a as int, i as int),
            effective == exists|k: int| 0 <= k < i - a && (text[k] == '_' || alphanumeric(#[trigger] text[k])),
        decreases b - i,
    {
        let c = retained[i];
        push_char(normalized, c);
        let identifier = c == '_' || is_alphanumeric(c);
        proof {
            assert(retained@.subrange(a as int, i + 1) =~= retained@.subrange(a as int, i as int).push(c));
            assert(text[i - a] == c);
            if identifier && !effective {
                assert(text[i - a] == '_' || alphanumeric(text[i - a]));
            }
        }
        effective = effective || identifier;
        i = i + 1;
    }
    proof {
        assert(normalized@ == before + text);
        lemma_encode_concat(before, text);
        assert(effective == effective_text(text));
    }
    let text_end = normalized.as_str().len();
    push_char(normalized, '\n');
    let index = lines.len();
    lines.push(
        NormalizedLine {
            text_range: Range { start: offset as u32, end: text_end as u32 },
            source_line: line_number as u32,
            effective,
            context: match context {
                Some(c) => c,
                None => StructuralContext::Executable,
            },
            scope: match scope {
                Some(scope) => scope,
                None => StructuralScope::Module,
            },
        },
    );
    if segment_start.is_none() {
        *segment_start = Some(index as u32);
    }
    proof {
        let ghost full = before + text + seq!['\n'];
        assert(normalized@ == full);
        lemma_encode_concat(before + text, seq!['\n']);
        lemma_encode_single('\n');
        assert(encode_utf8(seq!['\n']).len() == 1);
    }
}

/// Normalizes the characters `chars` of a source.
fn normalize_chars(
    chars: &Vec<char>,
    masks: &Vec<CharRange>,
    events: &Vec<CharEvent>,
    regions: &Vec<CharRegion>,
    mode: SuppressionMode,
) -> (out: (String, Vec<NormalizedLine>, Vec<NormalizedSegment>))
    requires
        masks_ordered(masks@),
        regions_ordered(regions@),
        encode_utf8(chars@).len() < u32::MAX,
    ensures
        (out.0@, out.1@, out.2@) == normalized(chars@, masks@, events@, regions@, mode),
{
    let ghost s = chars@;
    let n = chars.len();
    let apply = mode == SuppressionMode::Apply;
    let mut normalized = String::new();
    let mut lines: Vec<NormalizedLine> = Vec::new();
    let mut segments: Vec<NormalizedSegment> = Vec::new();
    let mut disabled = false;
    let mut segment_start: Option<u32> = None;
    let mut next_event: usize = 0;
    let mut next_mask: usize = 0;
    let mut scanned: usize = 0;
    let mut active: Vec<usize> = Vec::new();
    let mut start: usize = 0;
    let mut line_number: usize = 0;
    proof {
        assert(s.take(s.len() as int) =~= s);
        assert(s.take(0) =~= Seq::<char>::empty());
        assert(encode_utf8(Seq::<char>::empty()) =~= Seq::<u8>::empty());
        lemma_char_pos_monotone(s, 0, s.len() as int);
        lemma_char_pos_at_least(s, s.len() as int);
        assert(normalized@ =~= Seq::<char>::empty());
        assert(progress_of(normalized@, lines@, segments@, disabled, segment_start, 0, 0) == initial_progress());
    }
    while start < n
        invariant
            s == chars@,
            n == s.len(),
            apply == (mode == SuppressionMode::Apply),
            masks_ordered(masks@),
            regions_ordered(regions@),
            char_pos(s, s.len() as int) < u32::MAX,
            n < u32::MAX,
            start <= n,
            line_number <= start,
            lines@.len() <= line_number,
            next_event <= events@.len(),
            start < n ==> encode_utf8(normalized@).len() <= char_pos(s, start as int),
            next_mask <= masks@.len(),
            forall|k: int| 0 <= k < next_mask ==> (#[trigger] masks@[k]).end <= start,
            scanned <= regions@.len(),
            forall|i: int| 0 <= i < scanned ==> (#[trigger] regions@[i]).start < start,
            forall|a: int, b: int| 0 <= a < b < active@.len() ==> #[trigger] active@[a] < #[trigger] active@[b],
            forall|k: int| 0 <= k < active@.len() ==> #[trigger] active@[k] < scanned,
            forall|i: int| 0 <= i < scanned && (#[trigger] regions@[i]).end > start ==> active@.contains(i as usize),
            normalize_from(s, masks@, events@, regions@, mode, 0, initial_progress()) == normalize_from(
                s,
                masks@,
                events@,
                regions@,
                mode,
                start as int,
                progress_of(normalized@, lines@, segments@, disabled, segment_start, next_event as int, line_number as int),
            ),
        decreases n - start,
    {
        let ghost p = progress_of(normalized@, lines@, segments@, disabled, segment_start, next_event as int, line_number as int);
        let (end, content) = line_bounds(chars, start);
        proof {
            lemma_line_end(s, start as int);
            lemma_char_pos_monotone(s, start as int, content as int);
            lemma_char_pos_monotone(s, content as int, end as int);
            lemma_char_pos_monotone(s, end as int, s.len() as int);
        }
        update_active(regions, &mut scanned, &mut active, start, content);
        if !apply || !disabled {
            emit_line_exec(
                chars,
                masks,
                &mut next_mask,
                regions,
                &active,
                Ghost(scanned as int),
                start,
                content,
                line_number,
                &mut normalized,
                &mut lines,
                &mut segment_start,
                Ghost(p),
            );
        }
        let ghost emitted = progress_of(normalized@, lines@, segments@, disabled, segment_start, next_event as int, line_number as int);
        proof {
            assert(emitted == if !apply || !p.disabled {
                emit_line(s, masks@, regions@, start as int, content as int, p)
            } else {
                p
            });
        }
        if apply {
            take_events_exec(
                events,
                end,
                &mut next_event,
                &mut disabled,
                &mut segments,
                &mut segment_start,
                Ghost(emitted),
                lines.len(),
            );
        }
        proof {
            assert(normalize_line(s, masks@, events@, regions@, mode, start as int, end as int, p) == progress_of(
                normalized@,
                lines@,
                segments@,
                disabled,
                segment_start,
                next_event as int,
                line_number + 1,
            ));
            if content < end {
                assert(s[content as int] == '\n' || s[content as int] == '\r');
                lemma_char_pos_step(s, content as int);
                lemma_width_positive(s[content as int]);
            }
            if end < n {
                assert(content < end);
            }
        }
        start = end;
        line_number = line_number + 1;
    }
    close_segment_exec(&mut segments, &mut segment_start, lines.len());
    (normalized, lines, segments)
}

// ----------------------------------------------------------------------
// Preparing a file from its source and its analysis.
/// Why a file could not be prepared.
#[derive(Debug, PartialEq, Eq)]
pub enum PrepareError {
    /// The source is not valid Python.
    Python { path: String, message: String },
}

impl PrepareError {
    /// The error as one line: the path, then what went wrong.
    pub fn message(&self) -> (text: String)
        ensures
            match self {
                PrepareError::Python { path, message } => text@ == path@ + ": "@ + message@,
            },
    {
        match self {
            PrepareError::Python { path, message } => {
                let mut text = path.clone();
                text.append(": ");
                text.append(message.as_str());
                text
            },
        }
    }
}

/// Character position of byte offset `p` of `s`.
pub open spec fn char_index(s: Seq<char>, p: int) -> int {
    choose|i: int| 0 <= i <= s.len() && char_pos(s, i) == p
}

/// Masks of an analysis in character positions.
pub open spec fn char_masks(s: Seq<char>, masks: Seq<Range<usize>>) -> Seq<CharRange> {
    Seq::new(
        masks.len(),
        |k: int|
            CharRange {
                start: char_index(s, masks[k].start as int) as usize,
                end: char_index(s, masks[k].end as int) as usize,
            },
    )
}

/// Directives of an analysis in character positions.
pub open spec fn char_events(s: Seq<char>, events: Seq<SuppressionEvent>) -> Seq<CharEvent> {
    Seq::new(
        events.len(),
        |k: int| CharEvent { offset: char_index(s, events[k].offset as int) as usize, kind: events[k].kind },
    )
}

/// Statements of an analysis in character positions.
pub open spec fn char_regions(s: Seq<char>, regions: Seq<StructuralRegion>) -> Seq<CharRegion> {
    Seq::new(
        regions.len(),
        |k: int|
            CharRegion {
                start: char_index(s, regions[k].range.start as int) as usize,
                end: char_index(s, regions[k].range.end as int) as usize,
                byte_len: (regions[k].range.end - regions[k].range.start) as usize,
                context: regions[k].context,
                scope: regions[k].scope,
            },
    )
}

/// Normalization of the source `s` that `analysis` describes.
pub open spec fn normalized_source(s: Seq<char>, analysis: PythonAnalysis, mode: SuppressionMode) -> (
    Seq<char>,
    Seq<NormalizedLine>,
    Seq<NormalizedSegment>,
) {
    normalized(
        s,
        char_masks(s, analysis.masks@),
        char_events(s, analysis.suppressions@),
        char_regions(s, analysis.structural_regions@),
        mode,
    )
}

// ----------------------------------------------------------------------
// Segments partition the lines.
/// `segs` split lines `0..n` into non-empty runs, in order and without
/// gaps; no lines, no segments.
pub open spec fn segments_cover(n: int, segs: Seq<NormalizedSegment>) -> bool {
    &&& n == 0 ==> segs.len() == 0
    &&& n > 0 ==> {
        &&& segs.len() > 0
        &&& segs[0].start == 0
        &&& segs[segs.len() - 1].end == n
        &&& forall|k: int| 0 <= k < segs.len() ==> #[trigger] segs[k].start < segs[k].end
        &&& forall|k: int| 0 < k < segs.len() ==> #[trigger] segs[k].start == segs[k - 1].end
    }
}

/// Where the closed segments of `p` end: line 0 when there are none.
spec fn closed_end(p: NormalizeProgress) -> int {
    if p.segments.len() == 0 {
        0
    } else {
        p.segments.last().end as int
    }
}

/// The segments closed so far chain from line 0 without gaps; the segment
/// being built starts where they end, and without one they end at the
/// last line.
spec fn chained(p: NormalizeProgress) -> bool {
    let segs = p.segments;
    &&& segs.len() > 0 ==> segs[0].start == 0
    &&& forall|k: int| 0 <= k < segs.len() ==> #[trigger] segs[k].start < segs[k].end
    &&& forall|k: int| 0 < k < segs.len() ==> #[trigger] segs[k].start == segs[k - 1].end
    &&& closed_end(p) <= p.lines.len()
    &&& p.lines.len() <= u32::MAX
    &&& match p.segment_start {
        Some(start) => start == closed_end(p),
        None => closed_end(p) == p.lines.len(),
    }
}

/// Lines naming strictly increasing source lines.
spec fn lines_ascending(lines: Seq<NormalizedLine>) -> bool {
    forall|a: int, b: int| 0 <= a < b < lines.len() ==> (#[trigger] lines[a]).source_line < (
    #[trigger] lines[b]).source_line
}

/// Lines so far name strictly increasing source lines, all before the
/// next one.
spec fn numbered(p: NormalizeProgress) -> bool {
    &&& lines_ascending(p.lines)
    &&& forall|k: int| 0 <= k < p.lines.len() ==> (#[trigger] p.lines[k]).source_line < p.line_number
}

proof fn lemma_close_chained(p: NormalizeProgress)
    requires
        chained(p),
    ensures
        ({
            let segs = close_segment(p.segments, p.segment_start, p.lines.len() as int);
            &&& chained(NormalizeProgress { segments: segs, segment_start: None, ..p })
            &&& segments_cover(p.lines.len() as int, segs)
        }),
{
    let segs = close_segment(p.segments, p.segment_start, p.lines.len() as int);
    let q = NormalizeProgress { segments: segs, segment_start: None, ..p };
    let n = p.lines.len() as int;
    if let Some(start) = p.segment_start {
        if start < n {
            assert(segs == p.segments.push(NormalizedSegment { start, end: n as u32 }));
            assert forall|k: int| 0 < k < segs.len() implies #[trigger] segs[k].start == segs[k - 1].end by {
                if k < segs.len() - 1 {
                    assert(segs[k] == p.segments[k] && segs[k - 1] == p.segments[k - 1]);
                }
            }
            assert forall|k: int| 0 <= k < segs.len() implies #[trigger] segs[k].start < segs[k].end by {
                if k < segs.len() - 1 {
                    assert(segs[k] == p.segments[k]);
                }
            }
        }
    }
    if n == 0 && segs.len() > 0 {
        assert(segs[segs.len() - 1].start < segs[segs.len() - 1].end);
    }
}

proof fn lemma_take_events_chained(events: Seq<CharEvent>, end: int, p: NormalizeProgress)
    requires
        chained(p),
    ensures
        chained(take_events(events, end, p)),
        take_events(events, end, p).lines == p.lines,
        take_events(events, end, p).line_number == p.line_number,
    decreases events.len() - p.next_event,
{
    if !(p.next_event < 0 || p.next_event >= events.len() || events[p.next_event].offset >= end) {
        let event = events[p.next_event];
        let q = match (p.disabled, event.kind) {
            (false, SuppressionKind::Disable) => NormalizeProgress {
                segments: close_segment(p.segments, p.segment_start, p.lines.len() as int),
                segment_start: None,
                disabled: true,
                ..p
            },
            (true, SuppressionKind::Enable) => NormalizeProgress { disabled: false, ..p },
            _ => p,
        };
        lemma_close_chained(p);
        assert(chained(q));
        lemma_take_events_chained(events, end, NormalizeProgress { next_event: p.next_event + 1, ..q });
    }
}

proof fn lemma_normalize_from_chained(
    s: Seq<char>,
    masks: Seq<CharRange>,
    events: Seq<CharEvent>,
    regions: Seq<CharRegion>,
    mode: SuppressionMode,
    from: int,
    p: NormalizeProgress,
)
    requires
        chained(p),
        numbered(p),
        0 <= from,
        s.len() <= u32::MAX,
        0 <= p.line_number,
        from <= s.len() ==> p.lines.len() <= from && p.line_number <= from,
    ensures
        chained(normalize_from(s, masks, events, regions, mode, from, p)),
        numbered(normalize_from(s, masks, events, regions, mode, from, p)),
    decreases s.len() - from,
{
    if from < s.len() {
        lemma_line_end(s, from);
        let end = line_end(s, from);
        let apply = mode == SuppressionMode::Apply;
        let emitted = if !apply || !p.disabled {
            emit_line(s, masks, regions, from, content_end(s, from, end), p)
        } else {
            p
        };
        assert(chained(emitted) && emitted.lines.len() <= p.lines.len() + 1);
        assert(emitted.line_number == p.line_number);
        assert(lines_ascending(emitted.lines) && forall|k: int| 0 <= k < emitted.lines.len() ==> (#[trigger] emitted.lines[k]).source_line < p.line_number + 1) by {
            assert(0 <= p.line_number < u32::MAX);
            if emitted.lines.len() > p.lines.len() {
                assert(!apply || !p.disabled);
                let text = line_text(s, masks, from, content_end(s, from, end));
                assert(text.len() != 0);
                assert(emitted.lines == p.lines.push(emitted.lines.last()));
                assert(emitted.lines.last().source_line == p.line_number);
                assert forall|a: int, b: int| 0 <= a < b < emitted.lines.len() implies (
                #[trigger] emitted.lines[a]).source_line < (#[trigger] emitted.lines[b]).source_line by {
                    if b < p.lines.len() {
                        assert(emitted.lines[a] == p.lines[a] && emitted.lines[b] == p.lines[b]);
                    } else {
                        assert(emitted.lines[a] == p.lines[a]);
                    }
                }
                assert forall|k: int| 0 <= k < emitted.lines.len() implies (#[trigger] emitted.lines[k]).source_line
                    < p.line_number + 1 by {
                    if k < p.lines.len() {
                        assert(emitted.lines[k] == p.lines[k]);
                    }
                }
            }
        }
        let taken = if apply {
            take_events(events, end, emitted)
        } else {
            emitted
        };
        lemma_take_events_chained(events, end, emitted);
        let q = normalize_line(s, masks, events, regions, mode, from, end, p);
        assert(q == NormalizeProgress { line_number: p.line_number + 1, ..taken });
        assert(q.lines == emitted.lines);
        assert(numbered(q));
        lemma_normalize_from_chained(s, masks, events, regions, mode, end, q);
    }
}

/// Normalization splits its lines into segments: non-empty runs of lines,
/// in order and without gaps, covering every line; a source without lines
/// has no segments. The lines name strictly increasing source lines.
pub proof fn law_normalized_segments_partition(s: Seq<char>, analysis: PythonAnalysis, mode: SuppressionMode)
    requires
        s.len() <= u32::MAX,
    ensures
        segments_cover(normalized_source(s, analysis, mode).1.len() as int, normalized_source(s, analysis, mode).2),
        forall|a: int, b: int|
            0 <= a < b < normalized_source(s, analysis, mode).1.len() ==> (#[trigger] normalized_source(
                s,
                analysis,
                mode,
            ).1[a]).source_line < (#[trigger] normalized_source(s, analysis, mode).1[b]).source_line,
{
    let masks = char_masks(s, analysis.masks@);
    let events = char_events(s, analysis.suppressions@);
    let regions = char_regions(s, analysis.structural_regions@);
    assert(chained(initial_progress()));
    assert(numbered(initial_progress()));
    lemma_normalize_from_chained(s, masks, events, regions, mode, 0, initial_progress());
    let last = normalize_from(s, masks, events, regions, mode, 0, initial_progress());
    lemma_close_chained(last);
}

/// The table of `char_index_table` maps boundaries to character positions.
proof fn lemma_table_index(table: Seq<usize>, s: Seq<char>, p: int)
    requires
        forall|i: int| 0 <= i <= s.len() ==> #[trigger] table[char_pos(s, i)] == i,
        at_char_boundary(s, p),
    ensures
        table[p] == char_index(s, p),
        0 <= char_index(s, p) <= s.len(),
        char_pos(s, char_index(s, p)) == p,
{
    let i = char_index(s, p);
    assert(table[char_pos(s, i)] == i);
}

/// A boundary lies within the encoding, and positions fit in a `usize`.
proof fn lemma_boundary_bound(s: Seq<char>, p: int)
    requires
        at_char_boundary(s, p),
    ensures
        p <= encode_utf8(s).len(),
        char_index(s, p) <= s.len(),
{
    let i = char_index(s, p);
    lemma_char_pos_monotone(s, i, s.len() as int);
    crate::chars::lemma_char_pos_end(s);
}

/// Boundaries keep their order as character positions.
proof fn lemma_index_order(s: Seq<char>, p: int, q: int)
    requires
        at_char_boundary(s, p),
        at_char_boundary(s, q),
    ensures
        p < q ==> char_index(s, p) < char_index(s, q),
        p <= q ==> char_index(s, p) <= char_index(s, q),
{
    let i = char_index(s, p);
    let j = char_index(s, q);
    if i >= j {
        lemma_char_pos_monotone(s, j, i);
    }
    if i > j {
        lemma_char_pos_monotone(s, j, i);
    }
}

/// The analysis of `s` in character positions.
fn char_analysis(source: &str, analysis: &PythonAnalysis) -> (converted: (Vec<CharRange>, Vec<CharEvent>, Vec<CharRegion>))
    requires
        analysis_fits(source@, *analysis),
    ensures
        converted.0@ == char_masks(source@, analysis.masks@),
        converted.1@ == char_events(source@, analysis.suppressions@),
        converted.2@ == char_regions(source@, analysis.structural_regions@),
        masks_ordered(converted.0@),
        regions_ordered(converted.2@),
{
    let ghost s = source@;
    let table = char_index_table(source);
    let table_len = table.len();
    proof {
        lemma_char_pos_at_least(s, s.len() as int);
        crate::chars::lemma_char_pos_end(s);
        assert(source.spec_bytes() == encode_utf8(s));
        assert(s.len() < usize::MAX);
    }
    let mut masks: Vec<CharRange> = Vec::new();
    let mut k: usize = 0;
    while k < analysis.masks.len()
        invariant
            s == source@,
            analysis_fits(s, *analysis),
            forall|i: int| 0 <= i <= s.len() ==> #[trigger] table@[char_pos(s, i)] == i,
            table@.len() == source.spec_bytes().len() + 1,
            s.len() < usize::MAX,
            k <= analysis.masks@.len(),
            masks@ == char_masks(s, analysis.masks@).take(k as int),
        decreases analysis.masks@.len() - k,
    {
        let m = &analysis.masks[k];
        proof {
            assert(range_fits(s, analysis.masks@[k as int]));
            lemma_table_index(table@, s, m.start as int);
            lemma_table_index(table@, s, m.end as int);
            lemma_boundary_bound(s, m.start as int);
            lemma_boundary_bound(s, m.end as int);
            assert(source.spec_bytes() == encode_utf8(s));
        }
        masks.push(CharRange { start: table[m.start], end: table[m.end] });
        proof {
            assert(masks@ =~= char_masks(s, analysis.masks@).take(k + 1));
        }
        k = k + 1;
    }
    let mut events: Vec<CharEvent> = Vec::new();
    let mut k: usize = 0;
    while k < analysis.suppressions.len()
        invariant
            s == source@,
            analysis_fits(s, *analysis),
            forall|i: int| 0 <= i <= s.len() ==> #[trigger] table@[char_pos(s, i)] == i,
            table@.len() == source.spec_bytes().len() + 1,
            s.len() < usize::MAX,
            k <= analysis.suppressions@.len(),
            events@ == char_events(s, analysis.suppressions@).take(k as int),
        decreases analysis.suppressions@.len() - k,
    {
        let e = analysis.suppressions[k];
        proof {
            assert(at_char_boundary(s, analysis.suppressions@[k as int].offset as int));
            lemma_table_index(table@, s, e.offset as int);
            lemma_boundary_bound(s, e.offset as int);
            assert(source.spec_bytes() == encode_utf8(s));
        }
        events.push(CharEvent { offset: table[e.offset], kind: e.kind });
        proof {
            assert(events@ =~= char_events(s, analysis.suppressions@).take(k + 1));
        }
        k = k + 1;
    }
    let mut regions: Vec<CharRegion> = Vec::new();
    let mut k: usize = 0;
    while k < analysis.structural_regions.len()
        invariant
            s == source@,
            analysis_fits(s, *analysis),
            forall|i: int| 0 <= i <= s.len() ==> #[trigger] table@[char_pos(s, i)] == i,
            table@.len() == source.spec_bytes().len() + 1,
            s.len() < usize::MAX,
            k <= analysis.structural_regions@.len(),
            regions@ == char_regions(s, analysis.structural_regions@).take(k as int),
        decreases analysis.structural_regions@.len() - k,
    {
        let r = &analysis.structural_regions[k];
        proof {
            assert(range_fits(s, analysis.structural_regions@[k as int].range));
            lemma_table_index(table@, s, r.range.start as int);
            lemma_table_index(table@, s, r.range.end as int);
            lemma_boundary_bound(s, r.range.start as int);
            lemma_boundary_bound(s, r.range.end as int);
            assert(source.spec_bytes() == encode_utf8(s));
        }
        regions.push(
            CharRegion {
                start: table[r.range.start],
                end: table[r.range.end],
                byte_len: r.range.end - r.range.start,
                context: r.context,
                scope: r.scope,
            },
        );
        proof {
            assert(regions@ =~= char_regions(s, analysis.structural_regions@).take(k + 1));
        }
        k = k + 1;
    }
    proof {
        assert(masks@ =~= char_masks(s, analysis.masks@));
        assert(events@ =~= char_events(s, analysis.suppressions@));
        assert(regions@ =~= char_regions(s, analysis.structural_regions@));
        let bm = analysis.masks@;
        assert forall|k: int| 0 <= k < masks@.len() implies (#[trigger] masks@[k]).start <= masks@[k].end by {
            assert(range_fits(s, bm[k]));
            lemma_boundary_bound(s, bm[k].start as int);
            lemma_boundary_bound(s, bm[k].end as int);
            lemma_index_order(s, bm[k].start as int, bm[k].end as int);
        }
        assert forall|a: int, b: int| 0 <= a < b < masks@.len() implies (#[trigger] masks@[a]).end < (#[trigger] masks@[b]).start by {
            assert(range_fits(s, bm[a]) && range_fits(s, bm[b]));
            assert(bm[a].end < bm[b].start);
            lemma_boundary_bound(s, bm[a].end as int);
            lemma_boundary_bound(s, bm[b].start as int);
            lemma_index_order(s, bm[a].end as int, bm[b].start as int);
        }
        let br = analysis.structural_regions@;
        assert forall|a: int, b: int| 0 <= a < b < regions@.len() implies (#[trigger] regions@[a]).start <= (#[trigger] regions@[b]).start by {
            assert(range_fits(s, br[a].range) && range_fits(s, br[b].range));
            assert(br[a].range.start <= br[b].range.start);
            lemma_boundary_bound(s, br[a].range.start as int);
            lemma_boundary_bound(s, br[b].range.start as int);
            lemma_index_order(s, br[a].range.start as int, br[b].range.start as int);
        }
    }
    (masks, events, regions)
}

/// Prepares a file for matching from its source and the analysis of that
/// source without its byte order mark: the retained line texts, their
/// lines and segments, and, in audit mode, the suppression regions the
/// directives delimit. An analysis that failed gives the parser's message
/// as a syntax error of the file.
pub fn prepare_file_with_mode(
    path: String,
    source: String,
    analysis: Result<PythonAnalysis, String>,
    mode: SuppressionMode,
) -> (result: Result<(PreparedFile, Vec<SuppressionRegion>), PrepareError>)
    requires
        encode_utf8(source@).len() < u32::MAX,
        analysis matches Ok(a) ==> analysis_fits(without_bom(source@), a),
    ensures
        result is Err <==> analysis is Err,
        analysis matches Err(m) ==> result matches Err(PrepareError::Python { path: p, message })
            && p@ == path@ && message@ == "invalid Python syntax: "@ + m@,
        result matches Ok((file, regions)) ==> {
            let s = without_bom(source@);
            let a = analysis->Ok_0;
            &&& file.path@ == path@
            &&& file.source@ == s
            &&& (file.normalized@, file.lines@, file.segments@) == normalized_source(s, a, mode)
            &&& regions@ == if mode == SuppressionMode::Audit {
                suppression_regions(encode_utf8(s), a.suppressions@)
            } else {
                Seq::empty()
            }
        },
{
    let stripped = strip_bom(source.as_str());
    let ghost s = stripped@;
    let analysis = match analysis {
        Ok(analysis) => analysis,
        Err(parser_message) => {
            let mut message = String::from_str("invalid Python syntax: ");
            message.append(parser_message.as_str());
            return Err(PrepareError::Python { path, message });
        },
    };
    let text = stripped.as_str();
    proof {
        let full = source@;
        if full.len() > 0 && full[0] == '\u{feff}' {
            assert(full =~= seq![full[0]] + full.drop_first());
            lemma_encode_concat(seq![full[0]], full.drop_first());
        }
        assert(text@ == s);
        assert(text.spec_bytes() == encode_utf8(s));
        lemma_physical_lines_bound(encode_utf8(s));
    }
    let suppressions = if mode == SuppressionMode::Audit {
        derive_suppression_regions(text, analysis.suppressions.as_slice())
    } else {
        Vec::new()
    };
    let (masks, events, regions) = char_analysis(text, &analysis);
    let chars = chars_of(text);
    let (normalized, lines, segments) = normalize_chars(&chars, &masks, &events, &regions, mode);
    proof {
        assert(suppressions@ == if mode == SuppressionMode::Audit {
            suppression_regions(encode_utf8(s), analysis.suppressions@)
        } else {
            Seq::<SuppressionRegion>::empty()
        });
    }
    Ok((PreparedFile { path, source: stripped, normalized, lines, segments }, suppressions))
}

/// Prepares a file for matching, with suppression directives applied.
pub fn prepare_file(path: String, source: String, analysis: Result<PythonAnalysis, String>) -> (result: Result<
    PreparedFile,
    PrepareError,
>)
    requires
        encode_utf8(source@).len() < u32::MAX,
        analysis matches Ok(a) ==> analysis_fits(without_bom(source@), a),
    ensures
        result is Err <==> analysis is Err,
        analysis matches Err(m) ==> result matches Err(PrepareError::Python { path: p, message })
            && p@ == path@ && message@ == "invalid Python syntax: "@ + m@,
        result matches Ok(file) ==> {
            let s = without_bom(source@);
            &&& file.path@ == path@
            &&& file.source@ == s
            &&& (file.normalized@, file.lines@, file.segments@) == normalized_source(
                s,
                analysis->Ok_0,
                SuppressionMode::Apply,
            )
            &&& segments_cover(file.lines@.len() as int, file.segments@)
            &&& forall|a: int, b: int|
                0 <= a < b < file.lines@.len() ==> (#[trigger] file.lines@[a]).source_line < (
                #[trigger] file.lines@[b]).source_line
        },
{
    proof {
        lemma_encode_len_at_least(source@);
        if analysis is Ok {
            law_normalized_segments_partition(without_bom(source@), analysis->Ok_0, SuppressionMode::Apply);
        }
    }
    match prepare_file_with_mode(path, source, analysis, SuppressionMode::Apply) {
        Ok((file, _)) => Ok(file),
        Err(error) => Err(error),
    }
}

} // verus!
