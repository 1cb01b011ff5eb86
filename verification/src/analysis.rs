use std::ops::Range;
use vstd::prelude::*;
use vstd::string::{StringSliceAdditionalSpecFns, StrSliceExecFns};
use vstd::utf8::encode_utf8;

use crate::chars::{char_index_table, char_pos, chars_of, lemma_char_pos_at_least};
use crate::chars::{same_text, trim, trim_chars};
use crate::model::{StructuralContext, StructuralScope};
use crate::order::{lemma_sorted_indices, lemma_wide_pair_key, payloads, sort_by_key, sorted_by_key, wide_pair_key};

verus! {

/// What a directive comment asks for.
#[derive(Debug, Clone, Copy, PartialEq, Eq, Structural)]
pub enum SuppressionKind {
    Disable,
    Enable,
}

/// A directive comment that starts at byte `offset` of the source.
#[derive(Debug, Clone, Copy, PartialEq, Eq, Structural)]
pub struct SuppressionEvent {
    pub offset: usize,
    pub kind: SuppressionKind,
}

/// The byte range of one statement with its structural classification.
#[derive(Debug, PartialEq, Eq)]
pub struct StructuralRegion {
    pub range: Range<usize>,
    pub context: StructuralContext,
    pub scope: StructuralScope,
}

/// What the syntax analysis of one source hands to normalization: the byte
/// ranges to drop, the directive comments in source order, and the
/// classified statement ranges ordered by start, then end.
pub struct PythonAnalysis {
    pub masks: Vec<Range<usize>>,
    pub suppressions: Vec<SuppressionEvent>,
    pub structural_regions: Vec<StructuralRegion>,
}

// ----------------------------------------------------------------------
// The source an analysis describes.
/// `s` without a leading byte order mark.
pub open spec fn without_bom(s: Seq<char>) -> Seq<char> {
    if s.len() > 0 && s[0] == '\u{feff}' {
        s.drop_first()
    } else {
        s
    }
}

/// The source without a leading byte order mark, which is not Python
/// source and is not analysed.
pub fn strip_bom(source: &str) -> (stripped: String)
    ensures
        stripped@ == without_bom(source@),
{
    let chars = chars_of(source);
    if chars.len() > 0 && chars[0] == '\u{feff}' {
        proof {
            assert(source@.subrange(1, source@.len() as int) =~= source@.drop_first());
        }
        source.substring_char(1, chars.len()).to_owned()
    } else {
        source.to_owned()
    }
}

/// Byte offset `p` of `s` falls between two characters, or at either end.
pub open spec fn at_char_boundary(s: Seq<char>, p: int) -> bool {
    exists|i: int| 0 <= i <= s.len() && char_pos(s, i) == p
}

/// Range `r` runs forward between two character boundaries of `s`.
pub open spec fn range_fits(s: Seq<char>, r: Range<usize>) -> bool {
    at_char_boundary(s, r.start as int) && at_char_boundary(s, r.end as int) && r.start <= r.end
}

/// `analysis` describes the source `s`: every offset lies on a character
/// boundary, masks are increasing and apart from one another, directives
/// are in source order, statements are ordered by start and none ends
/// before it starts.
pub open spec fn analysis_fits(s: Seq<char>, analysis: PythonAnalysis) -> bool {
    let masks = analysis.masks@;
    let events = analysis.suppressions@;
    let regions = analysis.structural_regions@;
    &&& forall|k: int| 0 <= k < masks.len() ==> range_fits(s, #[trigger] masks[k])
    &&& forall|a: int, b: int| 0 <= a < b < masks.len() ==> (#[trigger] masks[a]).end < (#[trigger] masks[b]).start
    &&& forall|k: int| 0 <= k < events.len() ==> at_char_boundary(s, (#[trigger] events[k]).offset as int)
    &&& forall|a: int, b: int| 0 <= a < b < events.len() ==> (#[trigger] events[a]).offset <= (#[trigger] events[b]).offset
    &&& forall|k: int| 0 <= k < regions.len() ==> range_fits(s, (#[trigger] regions[k]).range)
    &&& forall|a: int, b: int|
        0 <= a < b < regions.len() ==> (#[trigger] regions[a]).range.start <= (#[trigger] regions[b]).range.start
}

/// Byte offset `p` is a boundary, by the table of `char_index_table`.
fn boundary_in(table: &Vec<usize>, p: usize, Ghost(s): Ghost<Seq<char>>) -> (boundary: bool)
    requires
        table@.len() == encode_utf8(s).len() + 1,
        forall|i: int| 0 <= i <= s.len() ==> #[trigger] table@[char_pos(s, i)] == i,
        forall|q: int|
            0 <= q < table@.len() && table@[q] != usize::MAX ==> table@[q] <= s.len() && char_pos(
                s,
                table@[q] as int,
            ) == q,
    ensures
        boundary == at_char_boundary(s, p as int),
{
    let boundary = p < table.len() && table[p] != usize::MAX;
    proof {
        if at_char_boundary(s, p as int) {
            let i = choose|i: int| 0 <= i <= s.len() && char_pos(s, i) == p;
            assert(s.take(s.len() as int) =~= s);
            crate::chars::lemma_char_pos_monotone(s, i, s.len() as int);
            lemma_char_pos_at_least(s, s.len() as int);
            assert(table@[char_pos(s, i)] == i);
        }
        if boundary {
            assert(char_pos(s, table@[p as int] as int) == p);
        }
    }
    boundary
}

/// Checks that `analysis` describes the source `source`.
pub fn analysis_fits_source(source: &str, analysis: &PythonAnalysis) -> (fits: bool)
    ensures
        fits == analysis_fits(source@, *analysis),
{
    let table = char_index_table(source);
    let ghost s = source@;
    proof {
        assert(source.spec_bytes() == encode_utf8(s));
    }
    let masks = &analysis.masks;
    let mut k: usize = 0;
    while k < masks.len()
        invariant
            s == source@,
            table@.len() == encode_utf8(s).len() + 1,
            forall|i: int| 0 <= i <= s.len() ==> #[trigger] table@[char_pos(s, i)] == i,
            forall|q: int|
                0 <= q < table@.len() && table@[q] != usize::MAX ==> table@[q] <= s.len() && char_pos(
                    s,
                    table@[q] as int,
                ) == q,
            masks@ == analysis.masks@,
            k <= masks@.len(),
            forall|j: int| 0 <= j < k ==> range_fits(s, #[trigger] masks@[j]),
            forall|a: int, b: int| 0 <= a < b < k ==> (#[trigger] masks@[a]).end < (#[trigger] masks@[b]).start,
        decreases masks@.len() - k,
    {
        let m = &masks[k];
        if !(boundary_in(&table, m.start, Ghost(s)) && boundary_in(&table, m.end, Ghost(s)) && m.start <= m.end) {
            proof {
                let j = k as int;
                assert(!range_fits(s, analysis.masks@[j]));
            }
            return false;
        }
        if k > 0 && !(masks[k - 1].end < m.start) {
            proof {
                let (a, b) = ((k - 1) as int, k as int);
                assert(!((analysis.masks@[a]).end < (analysis.masks@[b]).start));
            }
            return false;
        }
        proof {
            assert forall|a: int, b: int| 0 <= a < b < k + 1 implies (#[trigger] masks@[a]).end < (#[trigger] masks@[b]).start by {
                if b == k && a < k - 1 {
                    assert(masks@[a].end < masks@[k - 1].start);
                }
            }
        }
        k = k + 1;
    }
    let events = &analysis.suppressions;
    let mut k: usize = 0;
    while k < events.len()
        invariant
            s == source@,
            table@.len() == encode_utf8(s).len() + 1,
            forall|i: int| 0 <= i <= s.len() ==> #[trigger] table@[char_pos(s, i)] == i,
            forall|q: int|
                0 <= q < table@.len() && table@[q] != usize::MAX ==> table@[q] <= s.len() && char_pos(
                    s,
                    table@[q] as int,
                ) == q,
            events@ == analysis.suppressions@,
            k <= events@.len(),
            forall|j: int| 0 <= j < k ==> at_char_boundary(s, (#[trigger] events@[j]).offset as int),
            forall|a: int, b: int| 0 <= a < b < k ==> (#[trigger] events@[a]).offset <= (#[trigger] events@[b]).offset,
        decreases events@.len() - k,
    {
        if !boundary_in(&table, events[k].offset, Ghost(s)) {
            proof {
                let j = k as int;
                assert(!at_char_boundary(s, (analysis.suppressions@[j]).offset as int));
            }
            return false;
        }
        if k > 0 && events[k - 1].offset > events[k].offset {
            proof {
                let (a, b) = ((k - 1) as int, k as int);
                assert(!((analysis.suppressions@[a]).offset <= (analysis.suppressions@[b]).offset));
            }
            return false;
        }
        k = k + 1;
    }
    let regions = &analysis.structural_regions;
    let mut k: usize = 0;
    while k < regions.len()
        invariant
            s == source@,
            table@.len() == encode_utf8(s).len() + 1,
            forall|i: int| 0 <= i <= s.len() ==> #[trigger] table@[char_pos(s, i)] == i,
            forall|q: int|
                0 <= q < table@.len() && table@[q] != usize::MAX ==> table@[q] <= s.len() && char_pos(
                    s,
                    table@[q] as int,
                ) == q,
            regions@ == analysis.structural_regions@,
            k <= regions@.len(),
            forall|j: int| 0 <= j < k ==> range_fits(s, (#[trigger] regions@[j]).range),
            forall|a: int, b: int| 0 <= a < b < k ==> (#[trigger] regions@[a]).range.start <= (#[trigger] regions@[b]).range.start,
        decreases regions@.len() - k,
    {
        let r = &regions[k];
        if !(boundary_in(&table, r.range.start, Ghost(s)) && boundary_in(&table, r.range.end, Ghost(s))
            && r.range.start <= r.range.end) {
            proof {
                let j = k as int;
                assert(!range_fits(s, analysis.structural_regions@[j].range));
            }
            return false;
        }
        if k > 0 && regions[k - 1].range.start > r.range.start {
            proof {
                let (a, b) = ((k - 1) as int, k as int);
                assert(!((analysis.structural_regions@[a]).range.start <= (analysis.structural_regions@[b]).range.start));
            }
            return false;
        }
        k = k + 1;
    }
    true
}

// ----------------------------------------------------------------------
// Assembling an analysis.
/// Sort key of a byte range: by start, then end.
pub open spec fn range_key(r: Range<usize>) -> int {
    wide_pair_key(r.start as int, r.end as int)
}

/// Ranges in nondecreasing key order.
pub open spec fn ranges_sorted(s: Seq<Range<usize>>) -> bool {
    forall|a: int, b: int| 0 <= a < b < s.len() ==> range_key(#[trigger] s[a]) <= range_key(#[trigger] s[b])
}

/// Byte `p` lies in one of `ranges`.
pub open spec fn covered(ranges: Seq<Range<usize>>, p: int) -> bool {
    exists|k: int| 0 <= k < ranges.len() && (#[trigger] ranges[k]).start <= p < ranges[k].end
}

/// Sorted ranges merged from the left: a range that starts within the
/// last merged one extends it.
pub open spec fn merge_fold(s: Seq<Range<usize>>) -> Seq<Range<usize>>
    decreases s.len(),
{
    if s.len() == 0 {
        seq![]
    } else {
        let m = merge_fold(s.drop_last());
        let r = s.last();
        if m.len() > 0 && r.start <= m.last().end {
            m.update(
                m.len() - 1,
                Range {
                    start: m.last().start,
                    end: if r.end > m.last().end {
                        r.end
                    } else {
                        m.last().end
                    },
                },
            )
        } else {
            m.push(r)
        }
    }
}

/// `order` lists each index below `n` once.
pub open spec fn index_permutation(order: Seq<usize>, n: nat) -> bool {
    &&& order.len() == n
    &&& order.no_duplicates()
    &&& forall|r: int| 0 <= r < order.len() ==> #[trigger] order[r] < n
}

/// The elements of `s` in the order `order` lists them.
pub open spec fn reordered<T>(s: Seq<T>, order: Seq<usize>) -> Seq<T> {
    Seq::new(order.len(), |i: int| s[order[i] as int])
}

proof fn lemma_merge_fold(s: Seq<Range<usize>>)
    requires
        ranges_sorted(s),
        forall|k: int| 0 <= k < s.len() ==> (#[trigger] s[k]).start <= s[k].end,
    ensures
        forall|p: int| covered(merge_fold(s), p) <==> covered(s, p),
        forall|k: int| 0 <= k < merge_fold(s).len() ==> (#[trigger] merge_fold(s)[k]).start <= merge_fold(s)[k].end,
        forall|a: int, b: int|
            0 <= a < b < merge_fold(s).len() ==> (#[trigger] merge_fold(s)[a]).end < (#[trigger] merge_fold(s)[b]).start,
        s.len() > 0 ==> merge_fold(s).len() > 0 && exists|k: int|
            0 <= k < s.len() && (#[trigger] s[k]).start == merge_fold(s).last().start,
        forall|k: int| 0 <= k < merge_fold(s).len() ==> exists|j: int| 0 <= j < s.len() && (#[trigger] s[j]).start == (#[trigger] merge_fold(s)[k]).start,
    decreases s.len(),
{
    if s.len() > 0 {
        let init = s.drop_last();
        assert(ranges_sorted(init)) by {
            assert forall|a: int, b: int| 0 <= a < b < init.len() implies range_key(#[trigger] init[a]) <= range_key(
                #[trigger] init[b],
            ) by {
                assert(init[a] == s[a] && init[b] == s[b]);
            }
        }
        assert forall|k: int| 0 <= k < init.len() implies (#[trigger] init[k]).start <= init[k].end by {
            assert(init[k] == s[k]);
        }
        lemma_merge_fold(init);
        let m = merge_fold(init);
        let r = s.last();
        let out = merge_fold(s);
        assert forall|k: int| 0 <= k < m.len() implies (#[trigger] m[k]).start <= r.start by {
            let j = choose|j: int| 0 <= j < init.len() && (#[trigger] init[j]).start == m[k].start;
            assert(init[j] == s[j]);
            assert(range_key(s[j]) <= range_key(s[s.len() - 1]));
            lemma_wide_pair_key(s[j].start as int, s[j].end as int, r.start as int, r.end as int);
        }
        assert(s =~= init.push(r));
        assert forall|p: int| covered(out, p) <==> covered(s, p) by {
            lemma_merge_step_covers(init, m, r, out, p);
        }
        assert forall|a: int, b: int| 0 <= a < b < out.len() implies (#[trigger] out[a]).end < (#[trigger] out[b]).start by {
            if m.len() > 0 && r.start <= m.last().end {
                assert(out[a] == m[a]);
                if b < m.len() - 1 {
                    assert(out[b] == m[b]);
                }
            } else {
                if b < m.len() {
                    assert(out[a] == m[a] && out[b] == m[b]);
                } else {
                    assert(out[a] == m[a]);
                    if m.len() > 0 && a < m.len() - 1 {
                        assert(m[a].end < m[m.len() - 1].start);
                    }
                }
            }
        }
        assert forall|k: int| 0 <= k < out.len() implies exists|j: int|
            0 <= j < s.len() && (#[trigger] s[j]).start == (#[trigger] out[k]).start by {
            if k < m.len() {
                let j = choose|j: int| 0 <= j < init.len() && (#[trigger] init[j]).start == m[k].start;
                assert(init[j] == s[j]);
                assert(out[k].start == m[k].start);
            } else {
                assert(out[k] == r);
                assert(s[s.len() - 1] == r);
            }
        }
        assert(exists|k: int| 0 <= k < s.len() && (#[trigger] s[k]).start == out.last().start) by {
            let k = out.len() - 1;
            let j = choose|j: int| 0 <= j < s.len() && (#[trigger] s[j]).start == (#[trigger] out[k]).start;
        }
    }
}

proof fn lemma_merge_step_covers(
    init: Seq<Range<usize>>,
    m: Seq<Range<usize>>,
    r: Range<usize>,
    out: Seq<Range<usize>>,
    p: int,
)
    requires
        forall|q: int| covered(m, q) <==> covered(init, q),
        forall|k: int| 0 <= k < m.len() ==> (#[trigger] m[k]).start <= r.start,
        out == (if m.len() > 0 && r.start <= m.last().end {
            m.update(
                m.len() - 1,
                Range {
                    start: m.last().start,
                    end: if r.end > m.last().end {
                        r.end
                    } else {
                        m.last().end
                    },
                },
            )
        } else {
            m.push(r)
        }),
    ensures
        covered(out, p) <==> covered(init.push(r), p),
{
    let s = init.push(r);
    let merging = m.len() > 0 && r.start <= m.last().end;
    if covered(init, p) {
        assert(covered(m, p));
        let t = choose|t: int| 0 <= t < m.len() && (#[trigger] m[t]).start <= p < m[t].end;
        if merging && t == m.len() - 1 {
            assert(out[t].start <= p < out[t].end);
        } else {
            assert(out[t] == m[t]);
        }
        assert(covered(out, p));
        let k = choose|k: int| 0 <= k < init.len() && (#[trigger] init[k]).start <= p < init[k].end;
        assert(s[k] == init[k]);
        assert(covered(s, p));
    }
    if r.start <= p < r.end {
        if merging {
            assert(m[m.len() - 1].start <= r.start);
            assert(out[m.len() - 1].start <= p < out[m.len() - 1].end);
        } else {
            assert(out[out.len() - 1] == r);
        }
        assert(covered(out, p));
        assert(s[s.len() - 1] == r);
        assert(covered(s, p));
    }
    if covered(out, p) {
        let t = choose|t: int| 0 <= t < out.len() && (#[trigger] out[t]).start <= p < out[t].end;
        if merging && t == m.len() - 1 {
            if p < m.last().end {
                assert(m[t].start <= p < m[t].end);
                assert(covered(m, p));
            } else {
                assert(r.start <= p < r.end);
            }
        } else if t < m.len() {
            assert(out[t] == m[t]);
            assert(covered(m, p));
        } else {
            assert(out[t] == r);
        }
    }
    if covered(s, p) {
        let k = choose|k: int| 0 <= k < s.len() && (#[trigger] s[k]).start <= p < s[k].end;
        if k < init.len() {
            assert(s[k] == init[k]);
            assert(covered(init, p));
        }
    }
}

fn range_sort_key(r: &Range<usize>) -> (key: u128)
    ensures
        key == range_key(*r),
{
    let start = r.start as u128;
    let end = r.end as u128;
    assert(start * 18446744073709551616 + end < 340282366920938463463374607431768211456) by (nonlinear_arith)
        requires
            start < 18446744073709551616,
            end < 18446744073709551616,
    ;
    start * 18446744073709551616u128 + end
}

/// Sorts byte ranges by start, then end, and merges those that overlap or
/// touch. The merged ranges cover the same bytes, run forward, and are
/// increasing and apart from one another.
pub fn merge_ranges(ranges: &Vec<Range<usize>>) -> (merged: Vec<Range<usize>>)
    requires
        forall|k: int| 0 <= k < ranges@.len() ==> (#[trigger] ranges@[k]).start <= ranges@[k].end,
    ensures
        exists|order: Seq<usize>|
            index_permutation(order, ranges@.len()) && ranges_sorted(reordered(ranges@, order)) && merged@ == merge_fold(
                reordered(ranges@, order),
            ),
        forall|p: int| covered(merged@, p) <==> covered(ranges@, p),
        forall|k: int| 0 <= k < merged@.len() ==> (#[trigger] merged@[k]).start <= merged@[k].end,
        forall|a: int, b: int| 0 <= a < b < merged@.len() ==> (#[trigger] merged@[a]).end < (#[trigger] merged@[b]).start,
{
    let mut pairs: Vec<(u128, usize)> = Vec::new();
    let mut k: usize = 0;
    while k < ranges.len()
        invariant
            k <= ranges@.len(),
            pairs@.len() == k,
            forall|p: int| 0 <= p < k ==> (#[trigger] pairs@[p]).1 == p && pairs@[p].0 == range_key(ranges@[p]),
        decreases ranges@.len() - k,
    {
        pairs.push((range_sort_key(&ranges[k]), k));
        k = k + 1;
    }
    let sorted_pairs = sort_by_key(&pairs);
    proof {
        lemma_sorted_indices(pairs@, sorted_pairs@);
    }
    let ghost order = payloads(sorted_pairs@);
    let ghost sorted = reordered(ranges@, order);
    proof {
        assert forall|a: int, b: int| 0 <= a < b < sorted.len() implies range_key(#[trigger] sorted[a]) <= range_key(
            #[trigger] sorted[b],
        ) by {
            assert(sorted_pairs@[a] == pairs@[sorted_pairs@[a].1 as int]);
            assert(sorted_pairs@[b] == pairs@[sorted_pairs@[b].1 as int]);
        }
        assert forall|t: int| 0 <= t < sorted.len() implies (#[trigger] sorted[t]).start <= sorted[t].end by {
            assert(sorted[t] == ranges@[order[t] as int]);
        }
    }
    let mut merged: Vec<Range<usize>> = Vec::new();
    let mut i: usize = 0;
    while i < sorted_pairs.len()
        invariant
            sorted_pairs@.len() == ranges@.len(),
            order == payloads(sorted_pairs@),
            sorted == reordered(ranges@, order),
            forall|r: int| 0 <= r < sorted_pairs@.len() ==> (#[trigger] sorted_pairs@[r]).1 < ranges@.len(),
            i <= sorted_pairs@.len(),
            merged@ == merge_fold(sorted.take(i as int)),
        decreases sorted_pairs@.len() - i,
    {
        let r = &ranges[sorted_pairs[i].1];
        proof {
            assert(sorted.take(i + 1).drop_last() =~= sorted.take(i as int));
            assert(sorted.take(i + 1).last() == *r);
        }
        let n = merged.len();
        if n > 0 && r.start <= merged[n - 1].end {
            let start = merged[n - 1].start;
            let end = if r.end > merged[n - 1].end {
                r.end
            } else {
                merged[n - 1].end
            };
            merged.set(n - 1, Range { start, end });
        } else {
            merged.push(Range { start: r.start, end: r.end });
        }
        i = i + 1;
    }
    proof {
        assert(sorted.take(i as int) =~= sorted);
        assert forall|t: int| 0 <= t < order.len() implies #[trigger] order[t] < ranges@.len() by {
            assert(order[t] == sorted_pairs@[t].1);
        }
        assert(index_permutation(order, ranges@.len()));
        lemma_merge_fold(sorted);
        assert forall|p: int| covered(sorted, p) <==> covered(ranges@, p) by {
            if covered(sorted, p) {
                let t = choose|t: int| 0 <= t < sorted.len() && (#[trigger] sorted[t]).start <= p < sorted[t].end;
                assert(sorted[t] == ranges@[order[t] as int]);
            }
            if covered(ranges@, p) {
                let k = choose|k: int| 0 <= k < ranges@.len() && (#[trigger] ranges@[k]).start <= p < ranges@[k].end;
                assert(order.contains(k as usize));
                let t = choose|t: int| 0 <= t < order.len() && order[t] == k as usize;
                assert(sorted[t] == ranges@[k]);
            }
        }
        assert(merged@ == merge_fold(sorted));
        assert forall|p: int| covered(merged@, p) <==> covered(ranges@, p) by {
            assert(covered(merge_fold(sorted), p) <==> covered(sorted, p));
        }
    }
    merged
}

// ----------------------------------------------------------------------
// Directive comments and statement boundaries.
/// What the comment `text` asks for: `# arid: disable` or `# arid:
/// enable`, with any whitespace around the directive.
pub open spec fn directive_of(text: Seq<char>) -> Option<SuppressionKind> {
    if text.len() > 0 && text[0] == '#' {
        let d = trim_chars(text.drop_first());
        if d == "arid: disable"@ {
            Some(SuppressionKind::Disable)
        } else if d == "arid: enable"@ {
            Some(SuppressionKind::Enable)
        } else {
            None
        }
    } else {
        None
    }
}

/// The directive a comment holds, if any.
pub fn directive_kind(comment: &str) -> (kind: Option<SuppressionKind>)
    ensures
        kind == directive_of(comment@),
{
    let n = comment.unicode_len();
    if n == 0 || comment.get_char(0) != '#' {
        return None;
    }
    let rest = comment.substring_char(1, n);
    proof {
        assert(rest@ =~= comment@.drop_first());
    }
    let directive = trim(rest);
    if same_text(directive.as_str(), "arid: disable") {
        Some(SuppressionKind::Disable)
    } else if same_text(directive.as_str(), "arid: enable") {
        Some(SuppressionKind::Enable)
    } else {
        None
    }
}

/// Bytes `start..end` of `source` hold a line feed or carriage return.
pub open spec fn breaks_line(bytes: Seq<u8>, start: int, end: int) -> bool {
    exists|i: int| start <= i < end && (#[trigger] bytes[i] == 10u8 || bytes[i] == 13u8)
}

/// True when bytes `start..end` of `source` hold a line break.
pub fn contains_line_break(source: &str, start: usize, end: usize) -> (found: bool)
    requires
        start <= end <= source.spec_bytes().len(),
    ensures
        found == breaks_line(source.spec_bytes(), start as int, end as int),
{
    let bytes = source.as_bytes();
    let mut i: usize = start;
    while i < end
        invariant
            bytes@ == source.spec_bytes(),
            start <= i <= end <= bytes@.len(),
            forall|j: int| start <= j < i ==> bytes@[j] != 10u8 && bytes@[j] != 13u8,
        decreases end - i,
    {
        if bytes[i] == 10u8 || bytes[i] == 13u8 {
            return true;
        }
        i = i + 1;
    }
    false
}

// ----------------------------------------------------------------------
// Ordering directives and statements.
/// `sorted` lists the elements of `s` in an order that `order` gives.
pub open spec fn permutes<T>(sorted: Seq<T>, s: Seq<T>) -> bool {
    exists|order: Seq<usize>| index_permutation(order, s.len()) && sorted == reordered(s, order)
}

/// Orders directive comments by offset.
pub fn sort_suppressions(events: &Vec<SuppressionEvent>) -> (sorted: Vec<SuppressionEvent>)
    ensures
        permutes(sorted@, events@),
        forall|a: int, b: int| 0 <= a < b < sorted@.len() ==> (#[trigger] sorted@[a]).offset <= (#[trigger] sorted@[b]).offset,
{
    let mut pairs: Vec<(u128, usize)> = Vec::new();
    let mut k: usize = 0;
    while k < events.len()
        invariant
            k <= events@.len(),
            pairs@.len() == k,
            forall|p: int| 0 <= p < k ==> (#[trigger] pairs@[p]).1 == p && pairs@[p].0 == events@[p].offset,
        decreases events@.len() - k,
    {
        pairs.push((events[k].offset as u128, k));
        k = k + 1;
    }
    let sorted_pairs = sort_by_key(&pairs);
    proof {
        lemma_sorted_indices(pairs@, sorted_pairs@);
    }
    let mut sorted: Vec<SuppressionEvent> = Vec::new();
    let mut i: usize = 0;
    while i < sorted_pairs.len()
        invariant
            sorted_pairs@.len() == events@.len(),
            pairs@.len() == events@.len(),
            sorted_by_key(sorted_pairs@),
            forall|p: int| 0 <= p < pairs@.len() ==> (#[trigger] pairs@[p]).1 == p && pairs@[p].0 == events@[p].offset,
            forall|r: int|
                0 <= r < sorted_pairs@.len() ==> (#[trigger] sorted_pairs@[r]).1 < pairs@.len() && sorted_pairs@[r]
                    == pairs@[sorted_pairs@[r].1 as int],
            i <= sorted_pairs@.len(),
            sorted@ == reordered(events@, payloads(sorted_pairs@)).take(i as int),
        decreases sorted_pairs@.len() - i,
    {
        sorted.push(events[sorted_pairs[i].1]);
        proof {
            assert(sorted@ =~= reordered(events@, payloads(sorted_pairs@)).take(i + 1));
        }
        i = i + 1;
    }
    proof {
        let order = payloads(sorted_pairs@);
        assert(sorted@ =~= reordered(events@, order));
        assert forall|t: int| 0 <= t < order.len() implies #[trigger] order[t] < events@.len() by {
            assert(order[t] == sorted_pairs@[t].1);
        }
        assert(index_permutation(order, events@.len()));
        assert forall|a: int, b: int| 0 <= a < b < sorted@.len() implies (#[trigger] sorted@[a]).offset <= (
        #[trigger] sorted@[b]).offset by {
            assert(sorted_pairs@[a].0 <= sorted_pairs@[b].0);
        }
    }
    sorted
}

/// Orders statement regions by start, then end.
pub fn sort_regions(regions: &Vec<StructuralRegion>) -> (sorted: Vec<StructuralRegion>)
    ensures
        permutes(sorted@, regions@),
        ranges_sorted(sorted@.map_values(|r: StructuralRegion| r.range)),
{
    let mut pairs: Vec<(u128, usize)> = Vec::new();
    let mut k: usize = 0;
    while k < regions.len()
        invariant
            k <= regions@.len(),
            pairs@.len() == k,
            forall|p: int| 0 <= p < k ==> (#[trigger] pairs@[p]).1 == p && pairs@[p].0 == range_key(regions@[p].range),
        decreases regions@.len() - k,
    {
        pairs.push((range_sort_key(&regions[k].range), k));
        k = k + 1;
    }
    let sorted_pairs = sort_by_key(&pairs);
    proof {
        lemma_sorted_indices(pairs@, sorted_pairs@);
    }
    let mut sorted: Vec<StructuralRegion> = Vec::new();
    let mut i: usize = 0;
    while i < sorted_pairs.len()
        invariant
            sorted_pairs@.len() == regions@.len(),
            pairs@.len() == regions@.len(),
            sorted_by_key(sorted_pairs@),
            forall|p: int| 0 <= p < pairs@.len() ==> (#[trigger] pairs@[p]).1 == p && pairs@[p].0 == range_key(regions@[p].range),
            forall|r: int|
                0 <= r < sorted_pairs@.len() ==> (#[trigger] sorted_pairs@[r]).1 < pairs@.len() && sorted_pairs@[r]
                    == pairs@[sorted_pairs@[r].1 as int],
            i <= sorted_pairs@.len(),
            sorted@ == reordered(regions@, payloads(sorted_pairs@)).take(i as int),
        decreases sorted_pairs@.len() - i,
    {
        let region = &regions[sorted_pairs[i].1];
        sorted.push(
            StructuralRegion {
                range: Range { start: region.range.start, end: region.range.end },
                context: region.context,
                scope: region.scope,
            },
        );
        proof {
            assert(sorted@ =~= reordered(regions@, payloads(sorted_pairs@)).take(i + 1));
        }
        i = i + 1;
    }
    proof {
        let order = payloads(sorted_pairs@);
        assert(sorted@ =~= reordered(regions@, order));
        assert forall|t: int| 0 <= t < order.len() implies #[trigger] order[t] < regions@.len() by {
            assert(order[t] == sorted_pairs@[t].1);
        }
        assert(index_permutation(order, regions@.len()));
        let ranges = sorted@.map_values(|r: StructuralRegion| r.range);
        assert forall|a: int, b: int| 0 <= a < b < ranges.len() implies range_key(#[trigger] ranges[a]) <= range_key(
            #[trigger] ranges[b],
        ) by {
            assert(sorted_pairs@[a].0 <= sorted_pairs@[b].0);
        }
    }
    sorted
}

/// The analysis of one source from what its syntax yields, in any order:
/// masks merged, directives by offset, statements by start then end.
pub fn assemble_analysis(
    masks: &Vec<Range<usize>>,
    suppressions: &Vec<SuppressionEvent>,
    structural_regions: &Vec<StructuralRegion>,
) -> (analysis: PythonAnalysis)
    requires
        forall|k: int| 0 <= k < masks@.len() ==> (#[trigger] masks@[k]).start <= masks@[k].end,
    ensures
        forall|p: int| covered(analysis.masks@, p) <==> covered(masks@, p),
        forall|a: int, b: int|
            0 <= a < b < analysis.masks@.len() ==> (#[trigger] analysis.masks@[a]).end < (
            #[trigger] analysis.masks@[b]).start,
        forall|k: int| 0 <= k < analysis.masks@.len() ==> (#[trigger] analysis.masks@[k]).start <= analysis.masks@[k].end,
        permutes(analysis.suppressions@, suppressions@),
        forall|a: int, b: int|
            0 <= a < b < analysis.suppressions@.len() ==> (#[trigger] analysis.suppressions@[a]).offset <= (
            #[trigger] analysis.suppressions@[b]).offset,
        permutes(analysis.structural_regions@, structural_regions@),
        ranges_sorted(analysis.structural_regions@.map_values(|r: StructuralRegion| r.range)),
{
    PythonAnalysis {
        masks: merge_ranges(masks),
        suppressions: sort_suppressions(suppressions),
        structural_regions: sort_regions(structural_regions),
    }
}

// ----------------------------------------------------------------------
// Decisions of the syntax walk.
/// The kinds of Python statement the syntax walk tells apart.
#[derive(Debug, Clone, Copy, PartialEq, Eq, Structural)]
pub enum StatementKind {
    FunctionDef,
    ClassDef,
    TypeAlias,
    Assign,
    AnnAssign,
    Import,
    ImportFrom,
    Return,
    Delete,
    AugAssign,
    For,
    While,
    If,
    With,
    Match,
    Raise,
    Try,
    Assert,
    Global,
    Nonlocal,
    Expr,
    Pass,
    Break,
    Continue,
    IpyEscapeCommand,
}

/// Statements that declare when they stand directly in a module or class
/// body.
pub open spec fn declaring_kind(kind: StatementKind) -> bool {
    kind == StatementKind::TypeAlias || kind == StatementKind::Assign || kind == StatementKind::AnnAssign || kind
        == StatementKind::Import || kind == StatementKind::ImportFrom
}

/// The structure of a statement of `kind` found in `scope` at
/// `nesting_depth` compound statements below its scope's body.
pub open spec fn statement_class(kind: StatementKind, scope: StructuralScope, nesting_depth: u32) -> (
    StructuralContext,
    StructuralScope,
) {
    if kind == StatementKind::FunctionDef {
        (StructuralContext::Declarative, StructuralScope::Function)
    } else if kind == StatementKind::ClassDef {
        (StructuralContext::Declarative, StructuralScope::Class)
    } else if declaring_kind(kind) && scope != StructuralScope::Function && nesting_depth == 0 {
        (StructuralContext::Declarative, scope)
    } else {
        (StructuralContext::Executable, scope)
    }
}

/// Classifies one statement: definitions declare their own scope, module
/// and class level assignments and imports declare, all else executes.
pub fn classify_statement(kind: StatementKind, scope: StructuralScope, nesting_depth: u32) -> (class: (
    StructuralContext,
    StructuralScope,
))
    ensures
        class == statement_class(kind, scope, nesting_depth),
{
    let declaring = match kind {
        StatementKind::TypeAlias | StatementKind::Assign | StatementKind::AnnAssign | StatementKind::Import
        | StatementKind::ImportFrom => true,
        _ => false,
    };
    match kind {
        StatementKind::FunctionDef => (StructuralContext::Declarative, StructuralScope::Function),
        StatementKind::ClassDef => (StructuralContext::Declarative, StructuralScope::Class),
        _ => if declaring && scope != StructuralScope::Function && nesting_depth == 0 {
            (StructuralContext::Declarative, scope)
        } else {
            (StructuralContext::Executable, scope)
        },
    }
}

/// Scope and nesting depth inside the body of a statement of `kind`.
pub fn body_scope(kind: StatementKind, scope: StructuralScope, nesting_depth: u32) -> (inner: (StructuralScope, u32))
    ensures
        inner == (if kind == StatementKind::FunctionDef {
            (StructuralScope::Function, 0u32)
        } else if kind == StatementKind::ClassDef {
            (StructuralScope::Class, 0u32)
        } else {
            (scope, if nesting_depth == u32::MAX {
                u32::MAX
            } else {
                (nesting_depth + 1) as u32
            })
        }),
{
    match kind {
        StatementKind::FunctionDef => (StructuralScope::Function, 0),
        StatementKind::ClassDef => (StructuralScope::Class, 0),
        _ => (scope, nesting_depth.saturating_add(1)),
    }
}

/// The token kinds that decide where a function signature ends.
#[derive(Debug, Clone, Copy, PartialEq, Eq, Structural)]
pub enum TokenClass {
    Async,
    Def,
    Open,
    Close,
    Colon,
    Semicolon,
    Other,
}

/// A token: its class and byte range.
#[derive(Debug, Clone, Copy, PartialEq, Eq, Structural)]
pub struct Token {
    pub class: TokenClass,
    pub start: usize,
    pub end: usize,
}

/// State of the scan for a signature: bracket depth and where the
/// signature began.
pub open spec fn signature_scan(tokens: Seq<Token>, n: int) -> (int, Option<usize>)
    decreases n,
{
    if n <= 0 {
        (0, None)
    } else {
        let (nesting, start) = signature_scan(tokens, n - 1);
        let t = tokens[n - 1];
        match t.class {
            TokenClass::Async => if nesting == 0 && start is None {
                (nesting, Some(t.start))
            } else {
                (nesting, start)
            },
            TokenClass::Def => if nesting == 0 && start is None {
                (nesting, Some(t.start))
            } else {
                (nesting, start)
            },
            TokenClass::Open => (nesting + 1, start),
            TokenClass::Close => (if nesting > 0 {
                nesting - 1
            } else {
                0
            }, start),
            _ => (nesting, start),
        }
    }
}

/// The colon that ends the signature: the first colon outside brackets
/// after `async` or `def`.
pub open spec fn ends_signature(tokens: Seq<Token>, k: int) -> bool {
    tokens[k].class == TokenClass::Colon && signature_scan(tokens, k).0 == 0 && signature_scan(tokens, k).1 is Some
}

/// The byte range of a function's signature, from `async` or `def` to the
/// colon that ends it, given the tokens of the function in order.
pub fn signature_span(tokens: &Vec<Token>) -> (span: Option<Range<usize>>)
    ensures
        match span {
            Some(r) => exists|k: int|
                0 <= k < tokens@.len() && ends_signature(tokens@, k) && (forall|j: int|
                    0 <= j < k ==> !ends_signature(tokens@, j)) && r.start == signature_scan(tokens@, k).1->0 && r.end
                    == tokens@[k].end,
            None => forall|k: int| 0 <= k < tokens@.len() ==> !ends_signature(tokens@, k),
        },
{
    let mut nesting: u64 = 0;
    let mut start: Option<usize> = None;
    let mut k: usize = 0;
    while k < tokens.len()
        invariant
            k <= tokens@.len(),
            signature_scan(tokens@, k as int) == (nesting as int, start),
            nesting <= k,
            forall|j: int| 0 <= j < k ==> !ends_signature(tokens@, j),
        decreases tokens@.len() - k,
    {
        let t = tokens[k];
        match t.class {
            TokenClass::Async => {
                if nesting == 0 && start.is_none() {
                    start = Some(t.start);
                }
            },
            TokenClass::Def => {
                if nesting == 0 && start.is_none() {
                    start = Some(t.start);
                }
            },
            TokenClass::Open => {
                nesting = nesting + 1;
            },
            TokenClass::Close => {
                if nesting > 0 {
                    nesting = nesting - 1;
                }
            },
            TokenClass::Colon => {
                if nesting == 0 {
                    if let Some(first) = start {
                        proof {
                            assert(ends_signature(tokens@, k as int));
                        }
                        return Some(Range { start: first, end: t.end });
                    }
                }
            },
            _ => {},
        }
        k = k + 1;
    }
    None
}

/// The range a removed statement takes with it: a semicolon right after
/// it on the same line, or else one right before it on the same line.
pub open spec fn extended_range(
    bytes: Seq<u8>,
    start: usize,
    end: usize,
    next: Option<Token>,
    previous: Option<Token>,
) -> Range<usize> {
    match next {
        Some(t) if t.class == TokenClass::Semicolon && !breaks_line(bytes, end as int, t.start as int) => Range {
            start,
            end: t.end,
        },
        _ => match previous {
            Some(t) if t.class == TokenClass::Semicolon && !breaks_line(bytes, t.end as int, start as int) => Range {
                start: t.start,
                end,
            },
            _ => Range { start, end },
        },
    }
}

/// Extends the range of a removed statement over the semicolon that joins
/// it to its neighbour on the same line; `next` and `previous` are the
/// tokens around it.
pub fn extend_statement_range(
    source: &str,
    start: usize,
    end: usize,
    next: Option<Token>,
    previous: Option<Token>,
) -> (range: Range<usize>)
    requires
        start <= end <= source.spec_bytes().len(),
        next matches Some(t) ==> end <= t.start <= source.spec_bytes().len(),
        previous matches Some(t) ==> t.end <= start,
    ensures
        range == extended_range(source.spec_bytes(), start, end, next, previous),
{
    if let Some(t) = next {
        if t.class == TokenClass::Semicolon && !contains_line_break(source, end, t.start) {
            return Range { start, end: t.end };
        }
    }
    if let Some(t) = previous {
        if t.class == TokenClass::Semicolon && !contains_line_break(source, t.end, start) {
            return Range { start: t.start, end };
        }
    }
    Range { start, end }
}

/// A comment of the source: its byte range and its text.
#[derive(Debug, PartialEq, Eq)]
pub struct Comment {
    pub range: Range<usize>,
    pub text: String,
}

/// The comments that are masked: all when comments are ignored, else the
/// directives alone.
pub open spec fn masked_comments(comments: Seq<Comment>, ignore_comments: bool) -> Seq<Range<usize>>
    decreases comments.len(),
{
    if comments.len() == 0 {
        seq![]
    } else {
        let c = comments.last();
        masked_comments(comments.drop_last(), ignore_comments) + if ignore_comments || directive_of(c.text@) is Some {
            seq![c.range]
        } else {
            seq![]
        }
    }
}

/// The directive events of `comments`, in order.
pub open spec fn directive_events(comments: Seq<Comment>) -> Seq<SuppressionEvent>
    decreases comments.len(),
{
    if comments.len() == 0 {
        seq![]
    } else {
        let c = comments.last();
        directive_events(comments.drop_last()) + match directive_of(c.text@) {
            Some(kind) => seq![SuppressionEvent { offset: c.range.start, kind }],
            None => seq![],
        }
    }
}

/// What the comments of a source contribute: each directive as an event
/// at its start, and a mask over every comment when comments are ignored,
/// or else over the directives alone, which never take part in matching.
pub fn collect_comments(comments: &Vec<Comment>, ignore_comments: bool) -> (collected: (
    Vec<Range<usize>>,
    Vec<SuppressionEvent>,
))
    ensures
        collected.0@ == masked_comments(comments@, ignore_comments),
        collected.1@ == directive_events(comments@),
{
    let mut masks: Vec<Range<usize>> = Vec::new();
    let mut events: Vec<SuppressionEvent> = Vec::new();
    let mut k: usize = 0;
    while k < comments.len()
        invariant
            k <= comments@.len(),
            masks@ == masked_comments(comments@.take(k as int), ignore_comments),
            events@ == directive_events(comments@.take(k as int)),
        decreases comments@.len() - k,
    {
        let c = &comments[k];
        let kind = directive_kind(c.text.as_str());
        proof {
            assert(comments@.take(k + 1).drop_last() =~= comments@.take(k as int));
            assert(comments@.take(k + 1).last() == comments@[k as int]);
        }
        if let Some(kind) = kind {
            events.push(SuppressionEvent { offset: c.range.start, kind });
        }
        if ignore_comments || kind.is_some() {
            masks.push(Range { start: c.range.start, end: c.range.end });
        }
        k = k + 1;
    }
    proof {
        assert(comments@.take(k as int) =~= comments@);
    }
    (masks, events)
}

} // verus!
