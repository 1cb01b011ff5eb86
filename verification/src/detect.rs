use vstd::prelude::*;

use crate::corpus::{
    corpus_valid, in_one_segment, lemma_corpus_lengths, lemma_position_facts, lemma_positions_ascending, lemma_run_in_segment, lemma_same_token_same_text, line_text, Corpus, CorpusLocation,
};
use crate::model::{same_group, CorpusPos, DuplicateGroup, NormalizedLine, Occurrence};
use crate::order::{
    lemma_pair_key,
    lemma_sorted_indices,
    lemma_sorted_membership,
    pair_key,
    payloads,
    sort_by_key,
    sorted_by_key,
};
use crate::suffix::{
    build_lcp_array, build_suffix_array, is_permutation, is_sorted_suffixes, is_suffix_array, lcp_len, lemma_lcp_symmetric,
    lemma_suffix_array_unique,
    SuffixError,
};

verus! {

/// What counts as a duplicate.
#[derive(Debug, Clone, Copy, PartialEq, Eq, Structural)]
pub struct DetectionOptions {
    /// Minimum number of effective lines a duplicated block must have.
    pub min_lines: u32,
    /// Whether two copies inside one file count.
    pub same_file: bool,
}

impl Default for DetectionOptions {
    fn default() -> (options: Self)
        ensures
            options.min_lines == 4,
            options.same_file,
    {
        DetectionOptions { min_lines: 4, same_file: true }
    }
}

/// Why detection failed.
#[derive(Debug, Clone, Copy, PartialEq, Eq, Structural)]
pub enum DetectError {
    Suffix(SuffixError),
    InvalidMinLines,
    InvalidOccurrence { position: CorpusPos, length: u32 },
}

/// A range `left..=right` of the suffix array whose suffixes share at
/// least `length` leading tokens.
#[derive(Debug, Clone, Copy, PartialEq, Eq, Structural)]
pub struct LcpInterval {
    pub left: usize,
    pub right: usize,
    pub length: u32,
}

/// An occurrence together with the corpus position it starts at.
#[derive(Debug, Clone, Copy, PartialEq, Eq, Structural)]
pub struct CandidateOccurrence {
    pub corpus_start: CorpusPos,
    pub occurrence: Occurrence,
}

// ----------------------------------------------------------------------
// Specifications.
/// `interval` is a maximal range of the suffix array over which every LCP
/// entry is at least `interval.length`, and that length is the smallest
/// of them.
pub open spec fn lcp_interval(lcp: Seq<u32>, interval: LcpInterval) -> bool {
    let left = interval.left as int;
    let right = interval.right as int;
    let length = interval.length;
    &&& left < right < lcp.len()
    &&& length >= 1
    &&& forall|i: int| left < i <= right ==> #[trigger] lcp[i] >= length
    &&& exists|i: int| left < i <= right && #[trigger] lcp[i] == length
    &&& left == 0 || lcp[left] < length
    &&& right + 1 == lcp.len() || lcp[right + 1] < length
}

/// `container` covers every line of `candidate`.
pub open spec fn occurrence_covers(container: Occurrence, candidate: Occurrence) -> bool {
    &&& container.file == candidate.file
    &&& container.normalized_start <= candidate.normalized_start
    &&& candidate.normalized_start + candidate.normalized_len <= container.normalized_start
        + container.normalized_len
}

/// Some occurrence in `larger` covers `candidate`.
pub open spec fn covered_by(larger: Seq<Occurrence>, candidate: Occurrence) -> bool {
    exists|j: int| 0 <= j < larger.len() && occurrence_covers(#[trigger] larger[j], candidate)
}

/// `larger` is longer than `smaller` and covers each of its occurrences.
pub open spec fn group_covers(larger: DuplicateGroup, smaller: DuplicateGroup) -> bool {
    &&& larger.normalized_len > smaller.normalized_len
    &&& forall|i: int|
        0 <= i < smaller.occurrences@.len() ==> covered_by(larger.occurrences@, #[trigger] smaller.occurrences@[i])
}

/// Number of effective lines among `lines[start..end]`.
pub open spec fn effective_count(lines: Seq<NormalizedLine>, start: int, end: int) -> nat
    decreases end - start,
{
    if end <= start {
        0
    } else {
        effective_count(lines, start, end - 1) + if lines[end - 1].effective {
            1nat
        } else {
            0nat
        }
    }
}

/// Two occurrences in one file never share a line.
pub open spec fn no_same_file_overlap(occurrences: Seq<Occurrence>) -> bool {
    forall|a: int, b: int|
        0 <= a < occurrences.len() && 0 <= b < occurrences.len() && a != b
            && #[trigger] occurrences[a].file == #[trigger] occurrences[b].file ==> occurrences[a].normalized_start
            + occurrences[a].normalized_len <= occurrences[b].normalized_start || occurrences[b].normalized_start
            + occurrences[b].normalized_len <= occurrences[a].normalized_start
}

/// Sort key of a candidate: file, then start line, then corpus position.
pub open spec fn candidate_key(c: CandidateOccurrence) -> int {
    pair_key(
        pair_key(c.occurrence.file as int, c.occurrence.normalized_start as int),
        c.corpus_start as int,
    )
}

/// Order in which groups are considered for suppression: longer first,
/// then more effective lines first.
pub open spec fn suppression_key(g: DuplicateGroup) -> int {
    pair_key(u32::MAX - g.normalized_len, u32::MAX - g.effective_lines)
}

/// Presentation order of groups: by first occurrence, then longer first.
pub open spec fn presentation_key(g: DuplicateGroup) -> int {
    let first = g.occurrences@[0];
    pair_key(
        pair_key(pair_key(first.file as int, first.normalized_start as int), first.normalized_len as int),
        u32::MAX - g.normalized_len,
    )
}

/// What every reported group satisfies, given the detection options.
pub open spec fn qualified_group(corpus: Corpus, options: DetectionOptions, g: DuplicateGroup) -> bool {
    let occurrences = g.occurrences@;
    let first = occurrences[0];
    &&& occurrences.len() >= 2
    &&& g.normalized_len >= options.min_lines
    &&& g.effective_lines >= options.min_lines
    &&& forall|i: int| 0 <= i < occurrences.len() ==> (#[trigger] occurrences[i]).normalized_len == g.normalized_len
    &&& no_same_file_overlap(occurrences)
    &&& !options.same_file ==> exists|i: int| 0 <= i < occurrences.len() && (#[trigger] occurrences[i]).file != first.file
    &&& first.file < corpus.files@.len()
    &&& first.normalized_start + first.normalized_len <= corpus.files@[first.file as int].lines@.len()
    &&& g.effective_lines == effective_count(
        corpus.files@[first.file as int].lines@,
        first.normalized_start as int,
        first.normalized_start + first.normalized_len,
    )
}

/// `g` holds the same values as some group in `groups`.
pub open spec fn one_of(groups: Seq<DuplicateGroup>, g: DuplicateGroup) -> bool {
    exists|i: int| 0 <= i < groups.len() && same_group(g, #[trigger] groups[i])
}

/// Some group in `groups` equals `g` or covers it.
pub open spec fn represented_in(groups: Seq<DuplicateGroup>, g: DuplicateGroup) -> bool {
    exists|k: int| 0 <= k < groups.len() && (same_group(g, #[trigger] groups[k]) || group_covers(groups[k], g))
}

/// No group repeats another, and none is covered by another.
pub open spec fn canonical_groups(groups: Seq<DuplicateGroup>) -> bool {
    &&& forall|a: int, b: int|
        0 <= a < groups.len() && 0 <= b < groups.len() && a != b ==> !same_group(
            #[trigger] groups[a],
            #[trigger] groups[b],
        )
    &&& forall|a: int, b: int|
        0 <= a < groups.len() && 0 <= b < groups.len() ==> !group_covers(
            #[trigger] groups[a],
            #[trigger] groups[b],
        )
    &&& forall|a: int, b: int|
        0 <= a < b < groups.len() ==> presentation_key(#[trigger] groups[a]) <= presentation_key(
            #[trigger] groups[b],
        )
}

// ----------------------------------------------------------------------
// LCP intervals.
/// Height of the innermost open interval, 0 when none is open.
spec fn top_height(stack: Seq<(usize, u32)>) -> int {
    if stack.len() == 0 {
        0
    } else {
        stack.last().1 as int
    }
}

/// `stack` holds the open intervals after LCP entries `1..=upto`: by
/// increasing height, each covering entries of at least its height up to
/// `upto`, reaching one of exactly that height (at `witness[j]`), and
/// starting where the LCP is no higher than the interval below it.
spec fn open_intervals(l: Seq<u32>, stack: Seq<(usize, u32)>, witness: Seq<int>, upto: int) -> bool {
    &&& witness.len() == stack.len()
    &&& forall|j: int| 0 <= j < stack.len() ==> (#[trigger] stack[j]).1 >= 1
    &&& forall|j: int| 0 <= j < stack.len() ==> (#[trigger] stack[j]).0 < upto
    &&& forall|a: int, b: int| 0 <= a < b < stack.len() ==> (#[trigger] stack[a]).1 < (#[trigger] stack[b]).1
    &&& forall|j: int, i: int|
        0 <= j < stack.len() && (#[trigger] stack[j]).0 < i <= upto ==> #[trigger] l[i] >= stack[j].1
    &&& forall|j: int|
        0 <= j < stack.len() ==> (#[trigger] stack[j]).0 < witness[j] <= upto && l[witness[j]]
            == stack[j].1
    &&& forall|j: int|
        0 <= j < stack.len() ==> (#[trigger] stack[j]).0 == 0 || l[stack[j].0 as int] <= (if j == 0 {
            0
        } else {
            stack[j - 1].1 as int
        })
}

/// Closing the innermost open interval keeps the rest well formed.
proof fn lemma_open_after_pop(
    l: Seq<u32>,
    before: Seq<(usize, u32)>,
    stack: Seq<(usize, u32)>,
    wb: Seq<int>,
    w: Seq<int>,
    upto: int,
)
    requires
        open_intervals(l, before, wb, upto),
        before.len() > 0,
        stack == before.drop_last(),
        w == wb.drop_last(),
    ensures
        open_intervals(l, stack, w, upto),
{
    assert forall|j: int| 0 <= j < stack.len() implies #[trigger] stack[j] == before[j] && w[j] == wb[j] by {}
    assert forall|a: int, b: int| 0 <= a < b < stack.len() implies (#[trigger] stack[a]).1 < (
    #[trigger] stack[b]).1 by {
        assert(before[a].1 < before[b].1);
    }
    assert forall|j: int, i: int|
        0 <= j < stack.len() && (#[trigger] stack[j]).0 < i <= upto implies #[trigger] l[i] >= stack[j].1 by {
        assert(before[j].0 < i <= upto);
    }
    assert forall|j: int| 0 <= j < stack.len() implies (#[trigger] stack[j]).0 == 0 || l[stack[j].0 as int]
        <= (if j == 0 {
        0
    } else {
        stack[j - 1].1 as int
    }) by {
        if j > 0 {
            assert(before[j - 1] == stack[j - 1]);
        }
    }
}

/// Closes every open interval higher than `current`, reporting those of
/// length at least `min_lines`, and returns where the interval that
/// `current` continues starts.
#[verifier::spinoff_prover]
fn close_intervals(
    lcp: &Vec<u32>,
    stack: &mut Vec<(usize, u32)>,
    intervals: &mut Vec<LcpInterval>,
    index: usize,
    current: u32,
    min_lines: u32,
    Ghost(witness): Ghost<Seq<int>>,
) -> (result: (usize, Ghost<Seq<int>>))
    requires
        2 <= lcp@.len(),
        1 <= index <= lcp@.len(),
        current == (if index < lcp@.len() {
            lcp@[index as int]
        } else {
            0
        }),
        open_intervals(lcp@, old(stack)@, witness, index - 1),
        forall|k: int|
            0 <= k < old(intervals)@.len() ==> lcp_interval(lcp@, #[trigger] old(intervals)@[k])
                && old(intervals)@[k].length >= min_lines,
    ensures
        open_intervals(lcp@, final(stack)@, result.1@, index - 1),
        forall|k: int|
            0 <= k < final(intervals)@.len() ==> lcp_interval(lcp@, #[trigger] final(intervals)@[k])
                && final(intervals)@[k].length >= min_lines,
        top_height(final(stack)@) <= current,
        (result.0 == index - 1 && final(stack)@ == old(stack)@) || (result.0 < index - 1 && (forall|
            i: int,
        | result.0 < i <= index - 1 ==> #[trigger] lcp@[i] > current) && (result.0 == 0
            || lcp@[result.0 as int] <= top_height(final(stack)@))),
        final(stack)@ == old(stack)@.take(final(stack)@.len() as int),
        final(stack)@.len() <= old(stack)@.len(),
        forall|j: int| final(stack)@.len() <= j < old(stack)@.len() ==> (#[trigger] old(stack)@[j]).1 > current,
        old(intervals)@.len() <= final(intervals)@.len(),
        forall|k: int| 0 <= k < old(intervals)@.len() ==> #[trigger] final(intervals)@[k] == old(intervals)@[k],
        forall|j: int|
            final(stack)@.len() <= j < old(stack)@.len() && (#[trigger] old(stack)@[j]).1 >= min_lines
                ==> final(intervals)@.contains(
                LcpInterval { left: old(stack)@[j].0, right: (index - 1) as usize, length: old(stack)@[j].1 },
            ),
{
    let ghost start_stack = stack@;
    let ghost start_intervals = intervals@;
    let ghost l = lcp@;
    let ghost mut w = witness;
    let mut left: usize = index - 1;
    let ghost mut popped = false;
    while stack.len() > 0 && stack[stack.len() - 1].1 > current
        invariant
            l == lcp@,
            2 <= l.len(),
            1 <= index <= l.len(),
            current == (if index < l.len() {
                l[index as int]
            } else {
                0
            }),
            open_intervals(l, stack@, w, index - 1),
            forall|k: int|
                0 <= k < intervals@.len() ==> lcp_interval(l, #[trigger] intervals@[k])
                    && intervals@[k].length >= min_lines,
            !popped ==> left == index - 1 && stack@ == old(stack)@,
            popped ==> left < index - 1,
            popped ==> forall|i: int| left < i <= index - 1 ==> #[trigger] l[i] > current,
            popped ==> (left == 0 || l[left as int] <= top_height(stack@)),
            start_stack == old(stack)@,
            start_intervals == old(intervals)@,
            stack@ == start_stack.take(stack@.len() as int),
            stack@.len() <= start_stack.len(),
            forall|j: int| stack@.len() <= j < start_stack.len() ==> (#[trigger] start_stack[j]).1 > current,
            start_intervals.len() <= intervals@.len(),
            forall|k: int| 0 <= k < start_intervals.len() ==> #[trigger] intervals@[k] == start_intervals[k],
            forall|j: int|
                stack@.len() <= j < start_stack.len() && (#[trigger] start_stack[j]).1 >= min_lines
                    ==> intervals@.contains(
                    LcpInterval { left: start_stack[j].0, right: (index - 1) as usize, length: start_stack[j].1 },
                ),
        decreases stack@.len(),
    {
        let top = stack.len() - 1;
        let (interval_left, height) = stack[top];
        let ghost before = stack@;
        let ghost wb = w;
        stack.pop();
        proof {
            w = w.drop_last();
            assert(before[top as int] == (interval_left, height));
            assert forall|j: int| 0 <= j < stack@.len() implies #[trigger] stack@[j] == before[j] by {}
            lemma_open_after_pop(l, before, stack@, wb, w, index - 1);
        }
        if height >= min_lines {
            let interval = LcpInterval { left: interval_left, right: index - 1, length: height };
            proof {
                let j = top as int;
                assert(before[j].0 < index - 1);
                assert forall|i: int| interval_left < i <= index - 1 implies #[trigger] l[i]
                    >= height by {
                    assert(before[j].0 < i <= index - 1);
                }
                assert(interval_left < wb[j] <= index - 1 && l[wb[j]] == height);
                if interval_left != 0 {
                    if j > 0 {
                        assert(before[j - 1].1 < before[j].1);
                    }
                }
                assert(lcp_interval(l, interval));
            }
            let ghost earlier = intervals@;
            intervals.push(interval);
            proof {
                assert(intervals@[intervals@.len() - 1] == interval);
                assert forall|j: int|
                    stack@.len() + 1 <= j < start_stack.len() && (#[trigger] start_stack[j]).1 >= min_lines
                        implies intervals@.contains(
                    LcpInterval { left: start_stack[j].0, right: (index - 1) as usize, length: start_stack[j].1 },
                ) by {
                    let iv = LcpInterval { left: start_stack[j].0, right: (index - 1) as usize, length: start_stack[j].1 };
                    assert(earlier.contains(iv));
                    let k = choose|k: int| 0 <= k < earlier.len() && earlier[k] == iv;
                    assert(intervals@[k] == earlier[k]);
                }
            }
        }
        proof {
            assert(start_stack[top as int] == (interval_left, height));
            assert(stack@ =~= start_stack.take(stack@.len() as int));
            let j = top as int;
            assert forall|i: int| interval_left < i <= index - 1 implies #[trigger] l[i] > current by {
                assert(before[j].0 < i <= index - 1);
            }
            if interval_left != 0 {
                if j > 0 {
                    assert(before[j - 1] == stack@.last());
                }
            }
        }
        left = interval_left;
        proof {
            popped = true;
        }
    }
    (left, Ghost(w))
}

/// Opening an interval of height `current` at `left` keeps the stack
/// well formed one entry further on.
proof fn lemma_open_after_push(
    l: Seq<u32>,
    before: Seq<(usize, u32)>,
    stack: Seq<(usize, u32)>,
    witness: Seq<int>,
    left: usize,
    current: u32,
    index: int,
)
    requires
        1 <= index < l.len(),
        current == l[index],
        open_intervals(l, before, witness.drop_last(), index - 1),
        witness.len() == before.len() + 1,
        witness.last() == index,
        stack == before.push((left, current)),
        top_height(before) < current,
        (left == index - 1 && (index >= 2 ==> l[index - 1] == top_height(before))) || (left < index
            - 1 && (forall|i: int| left < i <= index - 1 ==> #[trigger] l[i] > current) && (left == 0
            || l[left as int] <= top_height(before))),
    ensures
        open_intervals(l, stack, witness, index),
{
    let n = before.len() as int;
    let wb = witness.drop_last();
    assert(stack[n] == (left, current));
    assert forall|j: int| 0 <= j < n implies #[trigger] stack[j] == before[j] && witness[j] == wb[j] by {}
    assert forall|a: int, b: int| 0 <= a < b < stack.len() implies (#[trigger] stack[a]).1 < (
    #[trigger] stack[b]).1 by {
        if b == n {
            if a < n - 1 {
                assert(before[a].1 < before[n - 1].1);
            }
        } else {
            assert(before[a].1 < before[b].1);
        }
    }
    assert forall|j: int, i: int|
        0 <= j < stack.len() && (#[trigger] stack[j]).0 < i <= index implies #[trigger] l[i]
        >= stack[j].1 by {
        if j < n {
            if j < n - 1 {
                assert(before[j].1 < before[n - 1].1);
            }
            if i < index {
                assert(before[j].0 < i <= index - 1);
            }
        }
    }
    assert forall|j: int| 0 <= j < stack.len() implies (#[trigger] stack[j]).0 < witness[j] <= index
        && l[witness[j]] == stack[j].1 by {
        if j < n {
            assert(before[j] == stack[j]);
        }
    }
    assert forall|j: int| 0 <= j < stack.len() implies (#[trigger] stack[j]).0 == 0 || l[stack[j].0 as int]
        <= (if j == 0 {
        0
    } else {
        stack[j - 1].1 as int
    }) by {
        if j < n {
            if j > 0 {
                assert(before[j - 1] == stack[j - 1]);
            }
        } else if j > 0 {
            assert(stack[j - 1] == before.last());
        }
    }
}

/// When `current` continues the innermost open interval, the stack stays
/// well formed one entry further on.
proof fn lemma_open_after_keep(l: Seq<u32>, stack: Seq<(usize, u32)>, witness: Seq<int>, current: u32, index: int)
    requires
        1 <= index <= l.len(),
        index < l.len() ==> current == l[index],
        index == l.len() ==> current == 0,
        open_intervals(l, stack, witness, index - 1),
        top_height(stack) <= current,
    ensures
        open_intervals(l, stack, witness, index),
{
    let n = stack.len() as int;
    assert forall|j: int, i: int|
        0 <= j < stack.len() && (#[trigger] stack[j]).0 < i <= index implies #[trigger] l[i] >= stack[j].1 by {
        if j < n - 1 {
            assert(stack[j].1 < stack[n - 1].1);
        }
        if i < index {
            assert(stack[j].0 < i <= index - 1);
        } else if index == l.len() {
            assert(stack[n - 1].1 >= 1);
        }
    }
}

/// `(left, h)` could still grow into an interval after LCP entries
/// `1..=upto`: every entry after `left` is at least `h`, one equals it,
/// and the entry at `left` is lower.
spec fn open_candidate(l: Seq<u32>, left: int, h: int, upto: int) -> bool {
    &&& h >= 1
    &&& 0 <= left
    &&& forall|i: int| left < i <= upto ==> #[trigger] l[i] >= h
    &&& exists|i: int| left < i <= upto && #[trigger] l[i] == h
    &&& left == 0 || l[left] < h
}

/// Every candidate interval after entries `1..=upto` is open on the stack.
#[verifier::opaque]
spec fn stack_complete(l: Seq<u32>, stack: Seq<(usize, u32)>, upto: int) -> bool {
    forall|left: int, h: int|
        #[trigger] open_candidate(l, left, h, upto) ==> exists|j: int|
            0 <= j < stack.len() && (#[trigger] stack[j]).0 == left && stack[j].1 == h
}

/// Every interval of length at least `min_lines` ending before `upto` is
/// reported.
#[verifier::opaque]
spec fn closed_reported(l: Seq<u32>, intervals: Seq<LcpInterval>, min_lines: u32, upto: int) -> bool {
    forall|iv: LcpInterval|
        #[trigger] lcp_interval(l, iv) && iv.length >= min_lines && iv.right < upto ==> intervals.contains(iv)
}

/// After entry `index`, every candidate is open: those already open stay
/// (they are no higher than `current`), and a new one of height `current`
/// is the interval just pushed.
proof fn lemma_stack_complete_step(
    l: Seq<u32>,
    old_stack: Seq<(usize, u32)>,
    closed_stack: Seq<(usize, u32)>,
    stack: Seq<(usize, u32)>,
    closed_witness: Seq<int>,
    index: int,
    left: usize,
    current: u32,
)
    requires
        1 <= index < l.len(),
        current == l[index],
        stack_complete(l, old_stack, index - 1),
        index >= 2 ==> l[index - 1] == top_height(old_stack),
        open_intervals(l, closed_stack, closed_witness, index - 1),
        closed_stack == old_stack.take(closed_stack.len() as int),
        closed_stack.len() <= old_stack.len(),
        forall|j: int| closed_stack.len() <= j < old_stack.len() ==> (#[trigger] old_stack[j]).1 > current,
        top_height(closed_stack) <= current,
        (left == index - 1 && closed_stack == old_stack) || (left < index - 1 && (forall|i: int|
            left < i <= index - 1 ==> #[trigger] l[i] > current) && (left == 0 || l[left as int] <= top_height(
            closed_stack,
        ))),
        current > top_height(closed_stack) ==> stack == closed_stack.push((left, current)),
        current <= top_height(closed_stack) ==> stack == closed_stack,
    ensures
        stack_complete(l, stack, index),
{
    reveal(stack_complete);
    assert forall|cl: int, h: int| #[trigger] open_candidate(l, cl, h, index) implies exists|j: int|
        0 <= j < stack.len() && (#[trigger] stack[j]).0 == cl && stack[j].1 == h by {
        let w = choose|i: int| cl < i <= index && #[trigger] l[i] == h;
        assert(l[index] >= h);
        if exists|i: int| cl < i <= index - 1 && #[trigger] l[i] == h {
            assert(open_candidate(l, cl, h, index - 1));
            let j = choose|j: int| 0 <= j < old_stack.len() && (#[trigger] old_stack[j]).0 == cl && old_stack[j].1 == h;
            assert(j < closed_stack.len());
            assert(closed_stack[j] == old_stack[j]);
            assert(stack[j] == closed_stack[j]);
            assert(stack[j].0 == cl && stack[j].1 == h);
        } else {
            // the only entry equal to `h` is the current one
            assert(w == index);
            assert(h == current);
            assert forall|i: int| cl < i <= index - 1 implies #[trigger] l[i] > current by {
                assert(l[i] >= h);
                assert(l[i] != h);
            }
            if current <= top_height(closed_stack) {
                let n = closed_stack.len() - 1;
                assert(closed_stack.len() > 0);
                let a = closed_stack[n].0 as int;
                let wn = closed_witness[n];
                assert(a < wn <= index - 1 && l[wn] == current);
                if wn > cl {
                    assert(l[wn] > current);
                } else {
                    assert(a < cl <= index - 1);
                    assert(l[cl] >= closed_stack[n].1);
                }
                assert(false);
            }
            // `left` and `cl` both bound the run above `current` ending at `index - 1`
            assert(left == 0 || l[left as int] < current) by {
                if left == index - 1 && closed_stack == old_stack {
                    if index >= 2 {
                        assert(l[index - 1] == top_height(old_stack));
                    }
                }
            }
            if cl < left {
                assert(l[left as int] > current);
            }
            if left < cl {
                assert(l[cl] > current);
            }
            assert(cl == left);
            assert(stack[closed_stack.len() as int] == (left, current));
        }
    }
}

/// After entry `index`, every interval ending at `index - 1` is reported:
/// it was open, and `current` is below its length, so it was closed.
proof fn lemma_closed_reported_step(
    l: Seq<u32>,
    old_stack: Seq<(usize, u32)>,
    closed_stack: Seq<(usize, u32)>,
    old_intervals: Seq<LcpInterval>,
    intervals: Seq<LcpInterval>,
    min_lines: u32,
    index: int,
    current: u32,
)
    requires
        1 <= index <= l.len(),
        current == (if index < l.len() {
            l[index]
        } else {
            0
        }),
        stack_complete(l, old_stack, index - 1),
        closed_reported(l, old_intervals, min_lines, index - 1),
        forall|a: int, b: int| 0 <= a < b < closed_stack.len() ==> (#[trigger] closed_stack[a]).1 < (#[trigger] closed_stack[b]).1,
        closed_stack == old_stack.take(closed_stack.len() as int),
        closed_stack.len() <= old_stack.len(),
        top_height(closed_stack) <= current,
        old_intervals.len() <= intervals.len(),
        forall|k: int| 0 <= k < old_intervals.len() ==> #[trigger] intervals[k] == old_intervals[k],
        forall|j: int|
            closed_stack.len() <= j < old_stack.len() && (#[trigger] old_stack[j]).1 >= min_lines
                ==> intervals.contains(
                LcpInterval { left: old_stack[j].0, right: (index - 1) as usize, length: old_stack[j].1 },
            ),
    ensures
        closed_reported(l, intervals, min_lines, index),
        closed_reported(l, intervals, min_lines, index - 1),
{
    reveal(closed_reported);
    reveal(stack_complete);
    assert forall|iv: LcpInterval|
        #[trigger] lcp_interval(l, iv) && iv.length >= min_lines && iv.right < index implies intervals.contains(
        iv,
    ) by {
        if iv.right < index - 1 {
            assert(old_intervals.contains(iv));
            let k = choose|k: int| 0 <= k < old_intervals.len() && old_intervals[k] == iv;
            assert(intervals[k] == old_intervals[k]);
        } else {
            let w = choose|i: int| iv.left < i <= iv.right && #[trigger] l[i] == iv.length;
            assert(open_candidate(l, iv.left as int, iv.length as int, index - 1));
            let j = choose|j: int|
                0 <= j < old_stack.len() && (#[trigger] old_stack[j]).0 == iv.left && old_stack[j].1 == iv.length;
            if j < closed_stack.len() {
                assert(closed_stack[j] == old_stack[j]);
                if j < closed_stack.len() - 1 {
                    assert(closed_stack[j].1 < closed_stack[closed_stack.len() - 1].1);
                }
                assert(old_stack[j].1 <= current);
            }
            assert(iv == LcpInterval { left: old_stack[j].0, right: (index - 1) as usize, length: old_stack[j].1 });
        }
    }
}

/// Returns the LCP intervals of length at least `min_lines`.
///
/// A stack holds the open intervals by increasing height; a drop in the
/// LCP closes every interval above it. A synthetic zero after the last
/// entry closes the rest.
#[verifier::spinoff_prover]
fn lcp_intervals(lcp: &Vec<u32>, min_lines: u32) -> (intervals: Vec<LcpInterval>)
    ensures
        forall|k: int|
            0 <= k < intervals@.len() ==> lcp_interval(lcp@, #[trigger] intervals@[k])
                && intervals@[k].length >= min_lines,
        forall|iv: LcpInterval|
            #[trigger] lcp_interval(lcp@, iv) && iv.length >= min_lines ==> intervals@.contains(iv),
{
    let mut intervals: Vec<LcpInterval> = Vec::new();
    if lcp.len() < 2 {
        return intervals;
    }
    let ghost l = lcp@;
    let mut stack: Vec<(usize, u32)> = Vec::new();
    let ghost mut witness: Seq<int> = Seq::empty();
    let mut index: usize = 1;
    proof {
        reveal(stack_complete);
        reveal(closed_reported);
    }
    loop
        invariant_except_break
            2 <= index <= l.len() ==> l[index - 1] == top_height(stack@),
            stack_complete(l, stack@, index - 1),
        invariant
            l == lcp@,
            2 <= l.len(),
            1 <= index <= l.len(),
            forall|k: int|
                0 <= k < intervals@.len() ==> lcp_interval(l, #[trigger] intervals@[k])
                    && intervals@[k].length >= min_lines,
            open_intervals(l, stack@, witness, index - 1),
            closed_reported(l, intervals@, min_lines, index - 1),
        ensures
            forall|k: int|
                0 <= k < intervals@.len() ==> lcp_interval(l, #[trigger] intervals@[k])
                    && intervals@[k].length >= min_lines,
            closed_reported(l, intervals@, min_lines, l.len() as int),
        decreases l.len() - index,
    {
        let ghost old_stack = stack@;
        let ghost old_intervals = intervals@;
        let current: u32 = if index < lcp.len() {
            lcp[index]
        } else {
            0
        };
        let (left, next_witness) = close_intervals(
            lcp,
            &mut stack,
            &mut intervals,
            index,
            current,
            min_lines,
            Ghost(witness),
        );
        proof {
            witness = next_witness@;
        }
        let ghost closed_stack = stack@;
        let ghost closed_witness = witness;
        proof {
            lemma_closed_reported_step(l, old_stack, stack@, old_intervals, intervals@, min_lines, index as int, current);
        }
        let previous_height: u32 = if stack.len() == 0 {
            0
        } else {
            stack[stack.len() - 1].1
        };
        if current > previous_height {
            let ghost before = stack@;
            stack.push((left, current));
            proof {
                assert(index < l.len());
                witness = witness.push(index as int);
                assert forall|j: int| 0 <= j < before.len() implies #[trigger] stack@[j] == before[j] by {}
                lemma_open_after_push(l, before, stack@, witness, left, current, index as int);
            }
        } else {
            proof {
                lemma_open_after_keep(l, stack@, witness, current, index as int);
            }
        }
        if index == lcp.len() {
            break;
        }
        proof {
            lemma_stack_complete_step(l, old_stack, closed_stack, stack@, closed_witness, index as int, left, current);
        }
        index = index + 1;
    }
    proof {
        reveal(closed_reported);
    }
    intervals
}

// ----------------------------------------------------------------------
// Occurrences.
/// A block of `length` corpus positions starting at `position` lies on
/// consecutive normalized lines of one file.
pub open spec fn candidate_valid(positions: Seq<Option<CorpusLocation>>, position: int, length: int) -> bool {
    let end = position + length - 1;
    &&& length >= 1
    &&& end <= u32::MAX
    &&& end < positions.len()
    &&& positions[position] is Some
    &&& positions[end] is Some
    &&& positions[position]->0.file == positions[end]->0.file
    &&& positions[end]->0.normalized_line == positions[position]->0.normalized_line + length - 1
}

/// Maps the block of `length` positions starting at `position` back to
/// normalized source lines.
fn candidate_occurrence(corpus: &Corpus, position: CorpusPos, length: u32) -> (result: Result<
    CandidateOccurrence,
    DetectError,
>)
    ensures
        result is Ok <==> candidate_valid(corpus.positions@, position as int, length as int),
        result matches Ok(c) ==> c.corpus_start == position && c.occurrence == (Occurrence {
            file: corpus.positions@[position as int]->0.file,
            normalized_start: corpus.positions@[position as int]->0.normalized_line,
            normalized_len: length,
        }),
        result matches Err(e) ==> e == (DetectError::InvalidOccurrence { position, length }),
{
    let invalid = DetectError::InvalidOccurrence { position, length };
    let start = match corpus.source_at(position) {
        Some(start) => start,
        None => {
            return Err(invalid);
        },
    };
    let last_offset = match length.checked_sub(1) {
        Some(offset) => offset,
        None => {
            return Err(invalid);
        },
    };
    let end_position = match position.checked_add(last_offset) {
        Some(end) => end,
        None => {
            return Err(invalid);
        },
    };
    let end = match corpus.source_at(end_position) {
        Some(end) => end,
        None => {
            return Err(invalid);
        },
    };
    let expected_end_line = match start.normalized_line.checked_add(last_offset) {
        Some(line) => line,
        None => {
            return Err(invalid);
        },
    };
    if start.file != end.file || end.normalized_line != expected_end_line {
        return Err(invalid);
    }
    Ok(
        CandidateOccurrence {
            corpus_start: position,
            occurrence: Occurrence {
                file: start.file,
                normalized_start: start.normalized_line,
                normalized_len: length,
            },
        },
    )
}

/// True when some occurrence lies in another file than the first.
fn spans_multiple_files(occurrences: &Vec<CandidateOccurrence>) -> (spans: bool)
    ensures
        spans == (occurrences@.len() > 0 && exists|i: int|
            0 <= i < occurrences@.len() && (#[trigger] occurrences@[i]).occurrence.file
                != occurrences@[0].occurrence.file),
{
    if occurrences.len() == 0 {
        return false;
    }
    let first = occurrences[0].occurrence.file;
    let mut i: usize = 1;
    while i < occurrences.len()
        invariant
            1 <= i <= occurrences@.len(),
            first == occurrences@[0].occurrence.file,
            forall|t: int| 0 <= t < i ==> (#[trigger] occurrences@[t]).occurrence.file == first,
        decreases occurrences@.len() - i,
    {
        if occurrences[i].occurrence.file != first {
            return true;
        }
        i = i + 1;
    }
    false
}

/// Number of effective lines covered by `occurrence`.
fn effective_line_count(corpus: &Corpus, occurrence: Occurrence) -> (result: Result<u32, DetectError>)
    ensures
        result is Ok <==> occurrence.file < corpus.files@.len() && occurrence.normalized_start
            + occurrence.normalized_len <= corpus.files@[occurrence.file as int].lines@.len(),
        result matches Ok(count) ==> count == effective_count(
            corpus.files@[occurrence.file as int].lines@,
            occurrence.normalized_start as int,
            occurrence.normalized_start + occurrence.normalized_len,
        ),
        result matches Err(e) ==> e == (DetectError::InvalidOccurrence {
            position: 0,
            length: occurrence.normalized_len,
        }),
{
    let invalid = DetectError::InvalidOccurrence { position: 0, length: occurrence.normalized_len };
    if occurrence.file as usize >= corpus.files.len() {
        return Err(invalid);
    }
    let file = &corpus.files[occurrence.file as usize];
    let start = occurrence.normalized_start as usize;
    let length = occurrence.normalized_len as usize;
    if start > file.lines.len() || length > file.lines.len() - start {
        return Err(invalid);
    }
    let end = start + length;
    let ghost lines = file.lines@;
    let mut count: u32 = 0;
    let mut i: usize = start;
    while i < end
        invariant
            start <= i <= end <= lines.len(),
            lines == file.lines@,
            lines.len() <= usize::MAX,
            length <= u32::MAX,
            end == start + length,
            count == effective_count(lines, start as int, i as int),
            count <= i - start,
        decreases end - i,
    {
        if file.lines[i].effective {
            count = count + 1;
        }
        i = i + 1;
    }
    Ok(count)
}

/// Every occurrence is preceded by the same line token (not a sentinel).
fn all_extend_left(corpus: &Corpus, occurrences: &Vec<CandidateOccurrence>) -> (extend: bool)
    requires
        forall|i: int|
            0 <= i < occurrences@.len() ==> (#[trigger] occurrences@[i]).corpus_start
                < corpus.tokens@.len(),
    ensures
        extend == (occurrences@.len() > 0 && forall|i: int|
            0 <= i < occurrences@.len() ==> {
                let start = (#[trigger] occurrences@[i]).corpus_start as int;
                let first = occurrences@[0].corpus_start as int;
                &&& start > 0
                &&& first > 0
                &&& corpus.tokens@[start - 1] < corpus.line_id_count
                &&& corpus.tokens@[start - 1] == corpus.tokens@[first - 1]
            }),
{
    let mut expected: Option<u32> = None;
    let mut i: usize = 0;
    while i < occurrences.len()
        invariant
            i <= occurrences@.len(),
            forall|t: int|
                0 <= t < occurrences@.len() ==> (#[trigger] occurrences@[t]).corpus_start
                    < corpus.tokens@.len(),
            i == 0 <==> expected is None,
            i > 0 ==> occurrences@[0].corpus_start > 0 && expected == Some(
                corpus.tokens@[occurrences@[0].corpus_start - 1],
            ),
            forall|t: int|
                0 <= t < i ==> {
                    let start = (#[trigger] occurrences@[t]).corpus_start as int;
                    &&& start > 0
                    &&& corpus.tokens@[start - 1] < corpus.line_id_count
                    &&& Some(corpus.tokens@[start - 1]) == expected
                },
        decreases occurrences@.len() - i,
    {
        let start = occurrences[i].corpus_start;
        if start == 0 {
            return false;
        }
        let token = corpus.tokens[(start - 1) as usize];
        if corpus.is_sentinel_token(token) {
            return false;
        }
        match expected {
            Some(expected_token) => {
                if expected_token != token {
                    return false;
                }
            },
            None => {
                expected = Some(token);
            },
        }
        i = i + 1;
    }
    expected.is_some()
}

/// Every occurrence is followed, `length` positions on, by the same line
/// token (not a sentinel).
fn all_extend_right(corpus: &Corpus, occurrences: &Vec<CandidateOccurrence>, length: u32) -> (extend: bool)
    ensures
        extend == (occurrences@.len() > 0 && forall|i: int|
            0 <= i < occurrences@.len() ==> {
                let next = (#[trigger] occurrences@[i]).corpus_start + length;
                let first = occurrences@[0].corpus_start + length;
                &&& next < corpus.tokens@.len()
                &&& first < corpus.tokens@.len()
                &&& corpus.tokens@[next] < corpus.line_id_count
                &&& corpus.tokens@[next] == corpus.tokens@[first]
            }),
{
    let mut expected: Option<u32> = None;
    let mut i: usize = 0;
    while i < occurrences.len()
        invariant
            i <= occurrences@.len(),
            i == 0 <==> expected is None,
            i > 0 ==> occurrences@[0].corpus_start + length < corpus.tokens@.len() && expected == Some(
                corpus.tokens@[occurrences@[0].corpus_start + length],
            ),
            forall|t: int|
                0 <= t < i ==> {
                    let next = (#[trigger] occurrences@[t]).corpus_start + length;
                    &&& next < corpus.tokens@.len()
                    &&& corpus.tokens@[next] < corpus.line_id_count
                    &&& Some(corpus.tokens@[next]) == expected
                },
        decreases occurrences@.len() - i,
    {
        let next: u64 = occurrences[i].corpus_start as u64 + length as u64;
        if next >= corpus.tokens.len() as u64 {
            return false;
        }
        let token = corpus.tokens[next as usize];
        if corpus.is_sentinel_token(token) {
            return false;
        }
        match expected {
            Some(expected_token) => {
                if expected_token != token {
                    return false;
                }
            },
            None => {
                expected = Some(token);
            },
        }
        i = i + 1;
    }
    expected.is_some()
}

/// True when `container` covers every line of `candidate`.
fn occurrence_contains(container: Occurrence, candidate: Occurrence) -> (contains: bool)
    ensures
        contains == occurrence_covers(container, candidate),
{
    if container.file != candidate.file {
        return false;
    }
    let container_start = container.normalized_start as u64;
    let container_end = container_start + container.normalized_len as u64;
    let candidate_start = candidate.normalized_start as u64;
    let candidate_end = candidate_start + candidate.normalized_len as u64;
    container_start <= candidate_start && container_end >= candidate_end
}

/// True when `larger` is longer than `smaller` and covers each of its
/// occurrences.
fn group_is_contained(larger: &DuplicateGroup, smaller: &DuplicateGroup) -> (contained: bool)
    ensures
        contained == group_covers(*larger, *smaller),
{
    if larger.normalized_len <= smaller.normalized_len {
        return false;
    }
    let mut i: usize = 0;
    while i < smaller.occurrences.len()
        invariant
            i <= smaller.occurrences@.len(),
            larger.normalized_len > smaller.normalized_len,
            forall|t: int| 0 <= t < i ==> covered_by(larger.occurrences@, #[trigger] smaller.occurrences@[t]),
        decreases smaller.occurrences@.len() - i,
    {
        let candidate = smaller.occurrences[i];
        let mut found = false;
        let mut j: usize = 0;
        while j < larger.occurrences.len()
            invariant
                j <= larger.occurrences@.len(),
                candidate == smaller.occurrences@[i as int],
                found ==> covered_by(larger.occurrences@, candidate),
                !found ==> forall|k: int| 0 <= k < j ==> !occurrence_covers(#[trigger] larger.occurrences@[k], candidate),
            decreases larger.occurrences@.len() - j,
        {
            if occurrence_contains(larger.occurrences[j], candidate) {
                found = true;
            }
            j = j + 1;
        }
        if !found {
            return false;
        }
        i = i + 1;
    }
    true
}

/// True when `a` and `b` hold the same values.
fn groups_equal(a: &DuplicateGroup, b: &DuplicateGroup) -> (equal: bool)
    ensures
        equal == same_group(*a, *b),
{
    if a.effective_lines != b.effective_lines || a.normalized_len != b.normalized_len
        || a.occurrences.len() != b.occurrences.len() {
        return false;
    }
    let mut i: usize = 0;
    while i < a.occurrences.len()
        invariant
            i <= a.occurrences@.len(),
            a.occurrences@.len() == b.occurrences@.len(),
            forall|t: int| 0 <= t < i ==> #[trigger] a.occurrences@[t] == b.occurrences@[t],
        decreases a.occurrences@.len() - i,
    {
        if a.occurrences[i] != b.occurrences[i] {
            return false;
        }
        i = i + 1;
    }
    proof {
        assert(a.occurrences@ =~= b.occurrences@);
    }
    true
}

// ----------------------------------------------------------------------
// Overlaps within a file.
/// `k`, kept, starts no later than `c` in its file and either is `c` or
/// overlaps it.
pub open spec fn kept_covers(k: CandidateOccurrence, c: CandidateOccurrence) -> bool {
    &&& k.occurrence.file == c.occurrence.file
    &&& k.occurrence.normalized_start <= c.occurrence.normalized_start
    &&& (k == c || c.occurrence.normalized_start < k.occurrence.normalized_start
        + k.occurrence.normalized_len)
}

/// `a` lies before `b`: an earlier file, or an earlier start in one file.
pub open spec fn candidate_before(a: CandidateOccurrence, b: CandidateOccurrence) -> bool {
    a.occurrence.file < b.occurrence.file || (a.occurrence.file == b.occurrence.file
        && a.occurrence.normalized_start < b.occurrence.normalized_start)
}

/// Candidates of one length, each starting at a line of its own.
pub open spec fn distinct_candidates(candidates: Seq<CandidateOccurrence>, length: u32) -> bool {
    &&& length >= 1
    &&& forall|i: int| 0 <= i < candidates.len() ==> (#[trigger] candidates[i]).occurrence.normalized_len == length
    &&& forall|i: int, j: int|
        0 <= i < candidates.len() && 0 <= j < candidates.len() && candidates[i] != candidates[j] ==> !(
        (#[trigger] candidates[i]).occurrence.file == (#[trigger] candidates[j]).occurrence.file
            && candidates[i].occurrence.normalized_start == candidates[j].occurrence.normalized_start)
}

proof fn lemma_cover_witness(candidates: Seq<CandidateOccurrence>, kept: Seq<CandidateOccurrence>, x: CandidateOccurrence)
    -> (d: CandidateOccurrence)
    requires
        overlap_free_cover(candidates, kept),
        candidates.contains(x),
    ensures
        kept.contains(d),
        candidates.contains(d),
        kept_covers(d, x),
{
    reveal(overlap_free_cover);
    let i = choose|i: int| 0 <= i < candidates.len() && candidates[i] == x;
    let m = choose|m: int| 0 <= m < kept.len() && kept_covers(#[trigger] kept[m], #[trigger] candidates[i]);
    assert(candidates.contains(kept[m]));
    kept[m]
}

proof fn lemma_cover_apart(candidates: Seq<CandidateOccurrence>, kept: Seq<CandidateOccurrence>)
    requires
        overlap_free_cover(candidates, kept),
    ensures
        forall|a: int, b: int|
            0 <= a < b < kept.len() && (#[trigger] kept[a]).occurrence.file == (#[trigger] kept[b]).occurrence.file
                ==> kept[a].occurrence.normalized_start + kept[a].occurrence.normalized_len
                <= kept[b].occurrence.normalized_start,
{
    reveal(overlap_free_cover);
}

proof fn lemma_kept_apart(kept: Seq<CandidateOccurrence>, candidates: Seq<CandidateOccurrence>, d: CandidateOccurrence, x: CandidateOccurrence)
    requires
        overlap_free_cover(candidates, kept),
        kept.contains(d),
        kept.contains(x),
        d != x,
        d.occurrence.file == x.occurrence.file,
    ensures
        d.occurrence.normalized_start + d.occurrence.normalized_len <= x.occurrence.normalized_start
            || x.occurrence.normalized_start + x.occurrence.normalized_len <= d.occurrence.normalized_start,
{
    lemma_cover_apart(candidates, kept);
    let a = choose|a: int| 0 <= a < kept.len() && kept[a] == d;
    let b = choose|b: int| 0 <= b < kept.len() && kept[b] == x;
    if a < b {
        assert(kept[a].occurrence.file == kept[b].occurrence.file);
    } else {
        assert(kept[b].occurrence.file == kept[a].occurrence.file);
    }
}

proof fn lemma_kept_candidates(candidates: Seq<CandidateOccurrence>, kept: Seq<CandidateOccurrence>)
    requires
        overlap_free_cover(candidates, kept),
    ensures
        forall|c: CandidateOccurrence| kept.contains(c) ==> candidates.contains(c),
{
    reveal(overlap_free_cover);
    assert forall|c: CandidateOccurrence| kept.contains(c) implies candidates.contains(c) by {
        let t = choose|t: int| 0 <= t < kept.len() && kept[t] == c;
        assert(candidates.contains(kept[t]));
    }
}

proof fn lemma_distinct_starts(candidates: Seq<CandidateOccurrence>, length: u32, a: CandidateOccurrence, b: CandidateOccurrence)
    requires
        distinct_candidates(candidates, length),
        candidates.contains(a),
        candidates.contains(b),
    ensures
        a.occurrence.normalized_len == length,
        a != b && a.occurrence.file == b.occurrence.file ==> a.occurrence.normalized_start != b.occurrence.normalized_start,
{
    let i = choose|i: int| 0 <= i < candidates.len() && candidates[i] == a;
    let j = choose|j: int| 0 <= j < candidates.len() && candidates[j] == b;
}

/// Two covers of the same distinct candidates keep the same candidates.
proof fn lemma_cover_members(
    candidates: Seq<CandidateOccurrence>,
    length: u32,
    k1: Seq<CandidateOccurrence>,
    k2: Seq<CandidateOccurrence>,
    x: CandidateOccurrence,
)
    requires
        overlap_free_cover(candidates, k1),
        overlap_free_cover(candidates, k2),
        distinct_candidates(candidates, length),
        candidates.contains(x),
    ensures
        k1.contains(x) <==> k2.contains(x),
    decreases x.occurrence.normalized_start,
{
    if k1.contains(x) != k2.contains(x) {
        let (ka, kb) = if k1.contains(x) {
            (k1, k2)
        } else {
            (k2, k1)
        };
        let d = lemma_cover_witness(candidates, kb, x);
        assert(d != x);
        lemma_distinct_starts(candidates, length, d, x);
        lemma_distinct_starts(candidates, length, x, d);
        assert(d.occurrence.normalized_start < x.occurrence.normalized_start);
        lemma_cover_members(candidates, length, k1, k2, d);
        lemma_kept_apart(ka, candidates, d, x);
    }
}

/// A cover of distinct candidates lists its copies in strictly ascending
/// order.
proof fn lemma_cover_ascending(candidates: Seq<CandidateOccurrence>, length: u32, k: Seq<CandidateOccurrence>)
    requires
        overlap_free_cover(candidates, k),
        distinct_candidates(candidates, length),
    ensures
        forall|a: int, b: int| 0 <= a < b < k.len() ==> candidate_before(#[trigger] k[a], #[trigger] k[b]),
{
    reveal(overlap_free_cover);
    assert forall|a: int, b: int| 0 <= a < b < k.len() implies candidate_before(#[trigger] k[a], #[trigger] k[b]) by {
        lemma_candidate_key_order(k[a], k[b]);
        assert(candidates.contains(k[a]) && candidates.contains(k[b]));
        let i = choose|i: int| 0 <= i < candidates.len() && candidates[i] == k[a];
        let j = choose|j: int| 0 <= j < candidates.len() && candidates[j] == k[b];
        if k[a].occurrence.file == k[b].occurrence.file {
            assert(k[a].occurrence.normalized_start + k[a].occurrence.normalized_len <= k[b].occurrence.normalized_start);
        }
    }
}

/// Sequences strictly ascending that hold the same elements are equal.
proof fn lemma_ascending_unique(a: Seq<CandidateOccurrence>, b: Seq<CandidateOccurrence>)
    requires
        forall|x: int, y: int| 0 <= x < y < a.len() ==> candidate_before(#[trigger] a[x], #[trigger] a[y]),
        forall|x: int, y: int| 0 <= x < y < b.len() ==> candidate_before(#[trigger] b[x], #[trigger] b[y]),
        forall|c: CandidateOccurrence| a.contains(c) <==> b.contains(c),
    ensures
        a == b,
    decreases a.len() + b.len(),
{
    if a.len() == 0 && b.len() > 0 {
        assert(b.contains(b[0]));
    } else if b.len() == 0 && a.len() > 0 {
        assert(a.contains(a[0]));
    } else if a.len() > 0 {
        let (na, nb) = (a.len() - 1, b.len() - 1);
        let (x, y) = (a[na], b[nb]);
        assert(a.contains(x) && b.contains(y));
        let i = choose|i: int| 0 <= i < a.len() && a[i] == y;
        let j = choose|j: int| 0 <= j < b.len() && b[j] == x;
        if x != y {
            assert(i < na && j < nb);
            assert(candidate_before(a[i], a[na]));
            assert(candidate_before(b[j], b[nb]));
        }
        let (ia, ib) = (a.drop_last(), b.drop_last());
        assert forall|c: CandidateOccurrence| ia.contains(c) <==> ib.contains(c) by {
            if ia.contains(c) {
                let t = choose|t: int| 0 <= t < ia.len() && ia[t] == c;
                assert(a[t] == c && candidate_before(a[t], a[na]));
                assert(b.contains(c));
                let u = choose|u: int| 0 <= u < b.len() && b[u] == c;
                if u == nb {
                    assert(c == x);
                }
                assert(ib[u] == c);
            }
            if ib.contains(c) {
                let t = choose|t: int| 0 <= t < ib.len() && ib[t] == c;
                assert(b[t] == c && candidate_before(b[t], b[nb]));
                assert(a.contains(c));
                let u = choose|u: int| 0 <= u < a.len() && a[u] == c;
                if u == na {
                    assert(c == y);
                }
                assert(ia[u] == c);
            }
        }
        assert forall|p: int, q: int| 0 <= p < q < ia.len() implies candidate_before(#[trigger] ia[p], #[trigger] ia[q]) by {
            assert(ia[p] == a[p] && ia[q] == a[q]);
        }
        assert forall|p: int, q: int| 0 <= p < q < ib.len() implies candidate_before(#[trigger] ib[p], #[trigger] ib[q]) by {
            assert(ib[p] == b[p] && ib[q] == b[q]);
        }
        lemma_ascending_unique(ia, ib);
        assert(a =~= ia.push(x));
        assert(b =~= ib.push(y));
    }
}

/// Distinct candidates of one length have one cover.
pub proof fn lemma_cover_unique(
    candidates: Seq<CandidateOccurrence>,
    length: u32,
    k1: Seq<CandidateOccurrence>,
    k2: Seq<CandidateOccurrence>,
)
    requires
        overlap_free_cover(candidates, k1),
        overlap_free_cover(candidates, k2),
        distinct_candidates(candidates, length),
    ensures
        k1 == k2,
{
    lemma_kept_candidates(candidates, k1);
    lemma_kept_candidates(candidates, k2);
    assert forall|c: CandidateOccurrence| k1.contains(c) <==> k2.contains(c) by {
        if k1.contains(c) || k2.contains(c) {
            lemma_cover_members(candidates, length, k1, k2, c);
        }
    }
    lemma_cover_ascending(candidates, length, k1);
    lemma_cover_ascending(candidates, length, k2);
    lemma_ascending_unique(k1, k2);
}

/// Whether a candidate lies in file `file`.
pub open spec fn in_file(file: u32) -> spec_fn(CandidateOccurrence) -> bool {
    |k: CandidateOccurrence| k.occurrence.file == file
}

/// The copies of `kept` in file `file`.
pub open spec fn kept_in_file(kept: Seq<CandidateOccurrence>, file: u32) -> Seq<CandidateOccurrence> {
    kept.filter(in_file(file))
}

/// Two candidates share a line.
pub open spec fn candidates_overlap(a: CandidateOccurrence, b: CandidateOccurrence) -> bool {
    &&& a.occurrence.file == b.occurrence.file
    &&& a.occurrence.normalized_start < b.occurrence.normalized_start + b.occurrence.normalized_len
    &&& b.occurrence.normalized_start < a.occurrence.normalized_start + a.occurrence.normalized_len
}

/// Each candidate is covered by a copy kept in its own file.
proof fn lemma_covered_in_file(candidates: Seq<CandidateOccurrence>, kept: Seq<CandidateOccurrence>, c: CandidateOccurrence)
    requires
        overlap_free_cover(candidates, kept),
        candidates.contains(c),
    ensures
        exists|k: CandidateOccurrence| kept_in_file(kept, c.occurrence.file).contains(k) && kept_covers(k, c),
{
    reveal(overlap_free_cover);
    let i = choose|i: int| 0 <= i < candidates.len() && candidates[i] == c;
    let k = choose|k: int| 0 <= k < kept.len() && kept_covers(#[trigger] kept[k], #[trigger] candidates[i]);
    kept.lemma_filter_contains(in_file(c.occurrence.file), k);
    assert(kept_in_file(kept, c.occurrence.file).contains(kept[k]) && kept_covers(kept[k], c));
}

/// Two non-overlapping candidates of one length are not covered by the
/// same kept copy of that length.
proof fn lemma_cover_separates(k: CandidateOccurrence, x: CandidateOccurrence, y: CandidateOccurrence, length: u32)
    requires
        length >= 1,
        k.occurrence.normalized_len == length,
        x.occurrence.normalized_len == length,
        y.occurrence.normalized_len == length,
        kept_covers(k, x),
        kept_covers(k, y),
        x != y,
    ensures
        candidates_overlap(x, y),
{
}

/// Removing same-file overlaps keeps as many copies as can be kept: of
/// the candidates of one file, all of one length, no set of copies that
/// pairwise share no line is larger than the copies kept in that file.
pub proof fn law_overlap_removal_keeps_most(
    candidates: Seq<CandidateOccurrence>,
    kept: Seq<CandidateOccurrence>,
    length: u32,
    file: u32,
    chosen: Seq<CandidateOccurrence>,
)
    requires
        overlap_free_cover(candidates, kept),
        length >= 1,
        forall|i: int| 0 <= i < candidates.len() ==> (#[trigger] candidates[i]).occurrence.normalized_len == length,
        chosen.no_duplicates(),
        forall|t: int|
            0 <= t < chosen.len() ==> candidates.contains(#[trigger] chosen[t]) && chosen[t].occurrence.file == file,
        forall|a: int, b: int|
            0 <= a < chosen.len() && 0 <= b < chosen.len() && a != b ==> !candidates_overlap(
                #[trigger] chosen[a],
                #[trigger] chosen[b],
            ),
    ensures
        chosen.len() <= kept_in_file(kept, file).len(),
{
    let kf = kept_in_file(kept, file);
    let cover = |c: CandidateOccurrence| choose|k: CandidateOccurrence| kf.contains(k) && kept_covers(k, c);
    let cs = chosen.to_set();
    assert forall|c: CandidateOccurrence| cs.contains(c) implies kf.contains(cover(c)) && kept_covers(cover(c), c)
        && cover(c).occurrence.normalized_len == length && c.occurrence.normalized_len == length by {
        assert(chosen.contains(c));
        let t = choose|t: int| 0 <= t < chosen.len() && chosen[t] == c;
        assert(candidates.contains(chosen[t]) && chosen[t].occurrence.file == file);
        lemma_covered_in_file(candidates, kept, c);
        let k = cover(c);
        kept.lemma_filter_contains_rev(in_file(file), k);
        assert(candidates.contains(k)) by {
            reveal(overlap_free_cover);
            let v = choose|v: int| 0 <= v < kept.len() && kept[v] == k;
            assert(candidates.contains(kept[v]));
        }
        let w = choose|w: int| 0 <= w < candidates.len() && candidates[w] == k;
        let u = choose|u: int| 0 <= u < candidates.len() && candidates[u] == c;
    }
    assert forall|x: CandidateOccurrence, y: CandidateOccurrence|
        cs.contains(x) && cs.contains(y) && #[trigger] cover(x) == #[trigger] cover(y) implies x == y by {
        if x != y {
            lemma_cover_separates(cover(x), x, y, length);
            let a = choose|a: int| 0 <= a < chosen.len() && chosen[a] == x;
            let b = choose|b: int| 0 <= b < chosen.len() && chosen[b] == y;
            assert(!candidates_overlap(chosen[a], chosen[b]));
        }
    }
    assert(vstd::relations::injective_on(cover, cs));
    let image = cs.map(cover);
    chosen.unique_seq_to_set();
    vstd::set_lib::lemma_map_size(cs, image, cover);
    assert(image.subset_of(kf.to_set())) by {
        assert forall|k: CandidateOccurrence| image.contains(k) implies kf.to_set().contains(k) by {
            let c = choose|c: CandidateOccurrence| cs.contains(c) && cover(c) == k;
        }
    }
    vstd::set_lib::lemma_len_subset(image, kf.to_set());
    kf.lemma_cardinality_of_set();
}

fn candidate_sort_key(c: CandidateOccurrence) -> (key: u128)
    ensures
        key == candidate_key(c),
{
    (c.occurrence.file as u128 * 4294967296u128 + c.occurrence.normalized_start as u128)
        * 4294967296u128 + c.corpus_start as u128
}

proof fn lemma_candidate_key_order(a: CandidateOccurrence, b: CandidateOccurrence)
    requires
        candidate_key(a) <= candidate_key(b),
    ensures
        a.occurrence.file <= b.occurrence.file,
        a.occurrence.file == b.occurrence.file ==> a.occurrence.normalized_start
            <= b.occurrence.normalized_start,
{
    let fa = a.occurrence.file as int;
    let fb = b.occurrence.file as int;
    let sa = a.occurrence.normalized_start as int;
    let sb = b.occurrence.normalized_start as int;
    lemma_pair_key(fa, sa, fb, sb);
    lemma_pair_key(pair_key(fa, sa), a.corpus_start as int, pair_key(fb, sb), b.corpus_start as int);
}

/// Removes overlapping occurrences within the same file.
///
/// Occurrences are ordered by file, start line and corpus position, and
/// each one overlapping the last one kept in its file is dropped. For
/// equal-length blocks, keeping the earliest start is optimal: it ends no
/// later than any overlapping alternative and so leaves the most room for
/// the ones after it.
fn remove_same_file_overlaps(occurrences: Vec<CandidateOccurrence>) -> (kept: Vec<CandidateOccurrence>)
    ensures
        forall|k: int| 0 <= k < kept@.len() ==> occurrences@.contains(#[trigger] kept@[k]),
        forall|a: int, b: int|
            0 <= a < b < kept@.len() ==> candidate_key(#[trigger] kept@[a]) <= candidate_key(
                #[trigger] kept@[b],
            ),
        forall|a: int, b: int|
            0 <= a < b < kept@.len() && (#[trigger] kept@[a]).occurrence.file == (
            #[trigger] kept@[b]).occurrence.file ==> kept@[a].occurrence.normalized_start
                + kept@[a].occurrence.normalized_len <= kept@[b].occurrence.normalized_start,
        forall|i: int|
            0 <= i < occurrences@.len() ==> exists|k: int|
                0 <= k < kept@.len() && kept_covers(#[trigger] kept@[k], #[trigger] occurrences@[i]),
        occurrences@.len() > 0 ==> kept@.len() > 0,
        overlap_free_cover(occurrences@, kept@),
{
    let mut pairs: Vec<(u128, CandidateOccurrence)> = Vec::new();
    let mut i: usize = 0;
    while i < occurrences.len()
        invariant
            i <= occurrences@.len(),
            pairs@.len() == i,
            forall|t: int|
                0 <= t < i ==> #[trigger] pairs@[t] == (candidate_key(occurrences@[t]) as u128, occurrences@[t]),
        decreases occurrences@.len() - i,
    {
        let c = occurrences[i];
        pairs.push((candidate_sort_key(c), c));
        i = i + 1;
    }
    let sorted = sort_by_key(&pairs);
    proof {
        lemma_sorted_membership(pairs@, sorted@);
        assert forall|t: int| 0 <= t < sorted@.len() implies #[trigger] sorted@[t].0 == candidate_key(
            sorted@[t].1,
        ) && occurrences@.contains(sorted@[t].1) by {
            assert(pairs@.contains(sorted@[t]));
            let x = choose|x: int| 0 <= x < pairs@.len() && pairs@[x] == sorted@[t];
            assert(pairs@[x] == (candidate_key(occurrences@[x]) as u128, occurrences@[x]));
        }
    }
    let mut kept: Vec<CandidateOccurrence> = Vec::new();
    let mut current_file: Option<u32> = None;
    let mut last_end: u64 = 0;
    let ghost mut idx: Seq<int> = Seq::empty();
    let ghost mut cover: Seq<int> = Seq::empty();
    let mut r: usize = 0;
    while r < sorted.len()
        invariant
            r <= sorted@.len(),
            sorted_by_key(sorted@),
            forall|t: int|
                0 <= t < sorted@.len() ==> #[trigger] sorted@[t].0 == candidate_key(sorted@[t].1)
                    && occurrences@.contains(sorted@[t].1),
            idx.len() == kept@.len(),
            forall|k: int| 0 <= k < kept@.len() ==> 0 <= #[trigger] idx[k] < r && kept@[k] == sorted@[idx[k]].1,
            forall|a: int, b: int| 0 <= a < b < kept@.len() ==> #[trigger] idx[a] < #[trigger] idx[b],
            kept@.len() == 0 <==> current_file is None,
            kept@.len() > 0 ==> current_file == Some(kept@.last().occurrence.file) && last_end
                == kept@.last().occurrence.normalized_start + kept@.last().occurrence.normalized_len,
            forall|a: int, b: int|
                0 <= a < b < kept@.len() && (#[trigger] kept@[a]).occurrence.file == (
                #[trigger] kept@[b]).occurrence.file ==> kept@[a].occurrence.normalized_start
                    + kept@[a].occurrence.normalized_len <= kept@[b].occurrence.normalized_start,
            cover.len() == r,
            forall|t: int|
                0 <= t < r ==> 0 <= #[trigger] cover[t] < kept@.len() && kept_covers(
                    kept@[cover[t]],
                    sorted@[t].1,
                ),
            r > 0 ==> kept@.len() > 0,
        decreases sorted@.len() - r,
    {
        let c = sorted[r].1;
        let start = c.occurrence.normalized_start as u64;
        let end = start + c.occurrence.normalized_len as u64;
        let overlaps = match current_file {
            Some(file) => file == c.occurrence.file && start < last_end,
            None => false,
        };
        proof {
            if kept@.len() > 0 {
                let last = kept@.len() - 1;
                assert(idx[last] < r);
                assert(sorted@[idx[last]].0 <= sorted@[r as int].0);
                lemma_candidate_key_order(kept@.last(), c);
            }
        }
        if overlaps {
            proof {
                cover = cover.push(kept@.len() - 1);
            }
        } else {
            let ghost before = kept@;
            proof {
                assert forall|a: int| 0 <= a < before.len() && (#[trigger] before[a]).occurrence.file
                    == c.occurrence.file implies before[a].occurrence.normalized_start
                    + before[a].occurrence.normalized_len <= c.occurrence.normalized_start by {
                    let last = before.len() - 1;
                    assert(sorted@[idx[a]].0 <= sorted@[r as int].0);
                    lemma_candidate_key_order(before[a], c);
                    if a < last {
                        assert(idx[a] < idx[last]);
                        assert(sorted@[idx[a]].0 <= sorted@[idx[last]].0);
                        lemma_candidate_key_order(before[a], before[last]);
                    }
                }
                idx = idx.push(r as int);
                cover = cover.push(before.len() as int);
            }
            current_file = Some(c.occurrence.file);
            last_end = end;
            kept.push(c);
            proof {
                assert forall|k: int| 0 <= k < before.len() implies #[trigger] kept@[k] == before[k] by {}
            }
        }
        r = r + 1;
    }
    proof {
        assert forall|k: int| 0 <= k < kept@.len() implies occurrences@.contains(#[trigger] kept@[k]) by {
            assert(kept@[k] == sorted@[idx[k]].1);
            assert(occurrences@.contains(sorted@[idx[k]].1));
        }
        assert forall|a: int, b: int| 0 <= a < b < kept@.len() implies candidate_key(#[trigger] kept@[a])
            <= candidate_key(#[trigger] kept@[b]) by {
            assert(idx[a] < idx[b]);
            assert(sorted@[idx[a]].0 <= sorted@[idx[b]].0);
        }
        assert forall|i: int| 0 <= i < occurrences@.len() implies exists|k: int|
            0 <= k < kept@.len() && kept_covers(#[trigger] kept@[k], #[trigger] occurrences@[i]) by {
            assert(pairs@[i] == (candidate_key(occurrences@[i]) as u128, occurrences@[i]));
            assert(sorted@.contains(pairs@[i]));
            let t = choose|t: int| 0 <= t < sorted@.len() && sorted@[t] == pairs@[i];
            assert(sorted@[t].1 == occurrences@[i]);
            let k = cover[t];
            assert(0 <= k < kept@.len() && kept_covers(kept@[k], occurrences@[i]));
        }
        reveal(overlap_free_cover);
    }
    kept
}

// ----------------------------------------------------------------------
// Canonical groups.
fn suppression_sort_key(g: &DuplicateGroup) -> (key: u128)
    ensures
        key == suppression_key(*g),
{
    (4294967295u32 - g.normalized_len) as u128 * 4294967296u128 + (4294967295u32
        - g.effective_lines) as u128
}

fn presentation_sort_key(g: &DuplicateGroup) -> (key: u128)
    requires
        g.occurrences@.len() > 0,
    ensures
        key == presentation_key(*g),
{
    let first = g.occurrences[0];
    ((first.file as u128 * 4294967296u128 + first.normalized_start as u128) * 4294967296u128
        + first.normalized_len as u128) * 4294967296u128 + (4294967295u32 - g.normalized_len) as u128
}

proof fn lemma_suppression_order(a: DuplicateGroup, b: DuplicateGroup)
    requires
        suppression_key(a) <= suppression_key(b),
    ensures
        a.normalized_len >= b.normalized_len,
{
    lemma_pair_key(
        u32::MAX - a.normalized_len,
        u32::MAX - a.effective_lines,
        u32::MAX - b.normalized_len,
        u32::MAX - b.effective_lines,
    );
}

/// True when some group in `kept` equals or covers `group`.
fn is_redundant(kept: &Vec<DuplicateGroup>, group: &DuplicateGroup) -> (redundant: bool)
    ensures
        redundant == exists|k: int|
            0 <= k < kept@.len() && (same_group(#[trigger] kept@[k], *group) || group_covers(
                kept@[k],
                *group,
            )),
{
    let mut k: usize = 0;
    while k < kept.len()
        invariant
            k <= kept@.len(),
            forall|t: int|
                0 <= t < k ==> !same_group(#[trigger] kept@[t], *group) && !group_covers(
                    kept@[t],
                    *group,
                ),
        decreases kept@.len() - k,
    {
        if groups_equal(&kept[k], group) || group_is_contained(&kept[k], group) {
            return true;
        }
        k = k + 1;
    }
    false
}

/// Drops repeated groups and groups whose every occurrence lies inside a
/// longer group, then orders the rest by first occurrence.
///
/// Longer groups are considered first, so a group is only ever compared
/// with groups already kept. A shorter group that adds an occurrence stays:
/// if A and B share 10 lines and A, B and C share the first 6 of them,
/// both groups remain.
fn canonicalize_groups(groups: Vec<DuplicateGroup>) -> (result: Vec<DuplicateGroup>)
    requires
        forall|i: int| 0 <= i < groups@.len() ==> (#[trigger] groups@[i]).occurrences@.len() > 0,
    ensures
        canonical_groups(result@),
        forall|k: int| 0 <= k < result@.len() ==> one_of(groups@, #[trigger] result@[k]),
        forall|i: int| 0 <= i < groups@.len() ==> represented_in(result@, #[trigger] groups@[i]),
{
    let n = groups.len();
    let mut pairs: Vec<(u128, usize)> = Vec::new();
    let mut i: usize = 0;
    while i < n
        invariant
            n == groups@.len(),
            i <= n,
            pairs@.len() == i,
            forall|t: int|
                0 <= t < i ==> #[trigger] pairs@[t] == (suppression_key(groups@[t]) as u128, t as usize),
        decreases n - i,
    {
        pairs.push((suppression_sort_key(&groups[i]), i));
        i = i + 1;
    }
    let sorted = sort_by_key(&pairs);
    proof {
        lemma_sorted_indices(pairs@, sorted@);
    }
    let mut kept: Vec<DuplicateGroup> = Vec::new();
    let ghost mut kpos: Seq<int> = Seq::empty();
    let ghost mut wit: Seq<int> = Seq::empty();
    let mut r: usize = 0;
    while r < n
        invariant
            n == groups@.len(),
            sorted@.len() == n,
            r <= n,
            sorted_by_key(sorted@),
            forall|t: int|
                0 <= t < sorted@.len() ==> (#[trigger] sorted@[t]).1 < n && sorted@[t] == pairs@[sorted@[t].1 as int],
            forall|t: int|
                0 <= t < n ==> #[trigger] pairs@[t] == (suppression_key(groups@[t]) as u128, t as usize),
            kpos.len() == kept@.len(),
            forall|k: int|
                0 <= k < kept@.len() ==> 0 <= #[trigger] kpos[k] < r && same_group(
                    kept@[k],
                    groups@[sorted@[kpos[k]].1 as int],
                ),
            forall|a: int, b: int|
                0 <= a < kept@.len() && 0 <= b < kept@.len() && a != b ==> !same_group(
                    #[trigger] kept@[a],
                    #[trigger] kept@[b],
                ),
            forall|a: int, b: int|
                0 <= a < kept@.len() && 0 <= b < kept@.len() ==> !group_covers(
                    #[trigger] kept@[a],
                    #[trigger] kept@[b],
                ),
            wit.len() == r,
            forall|t: int|
                0 <= t < r ==> 0 <= #[trigger] wit[t] < kept@.len() && (same_group(
                    groups@[sorted@[t].1 as int],
                    kept@[wit[t]],
                ) || group_covers(kept@[wit[t]], groups@[sorted@[t].1 as int])),
        decreases n - r,
    {
        let index = sorted[r].1;
        let group = &groups[index];
        if is_redundant(&kept, group) {
            proof {
                let k = choose|k: int|
                    0 <= k < kept@.len() && (same_group(#[trigger] kept@[k], *group) || group_covers(
                        kept@[k],
                        *group,
                    ));
                wit = wit.push(k);
            }
        } else {
            let ghost before = kept@;
            proof {
                assert forall|k: int| 0 <= k < before.len() implies (#[trigger] before[k]).normalized_len
                    >= group.normalized_len by {
                    let t = kpos[k];
                    assert(sorted@[t].0 <= sorted@[r as int].0);
                    assert(sorted@[t] == pairs@[sorted@[t].1 as int]);
                    assert(sorted@[r as int] == pairs@[index as int]);
                    lemma_suppression_order(groups@[sorted@[t].1 as int], *group);
                }
            }
            kept.push(group.clone());
            proof {
                assert forall|k: int| 0 <= k < before.len() implies #[trigger] kept@[k] == before[k] by {}
                kpos = kpos.push(r as int);
                wit = wit.push(before.len() as int);
                let last = before.len() as int;
                assert forall|a: int, b: int|
                    0 <= a < kept@.len() && 0 <= b < kept@.len() && a != b implies !same_group(
                    #[trigger] kept@[a],
                    #[trigger] kept@[b],
                ) by {
                    if a == last {
                        assert(!same_group(before[b], *group));
                    }
                    if b == last {
                        assert(!same_group(before[a], *group));
                    }
                }
                assert forall|a: int, b: int|
                    0 <= a < kept@.len() && 0 <= b < kept@.len() implies !group_covers(
                    #[trigger] kept@[a],
                    #[trigger] kept@[b],
                ) by {
                    if b == last && a < last {
                        assert(!group_covers(before[a], *group));
                    }
                }
            }
        }
        r = r + 1;
    }
    let m = kept.len();
    let mut pairs: Vec<(u128, usize)> = Vec::new();
    let mut k: usize = 0;
    while k < m
        invariant
            m == kept@.len(),
            k <= m,
            pairs@.len() == k,
            forall|t: int| 0 <= t < kpos.len() ==> 0 <= #[trigger] kpos[t] < n,
            kpos.len() == m,
            forall|t: int|
                0 <= t < m ==> same_group(#[trigger] kept@[t], groups@[sorted@[kpos[t]].1 as int]),
            forall|t: int| 0 <= t < sorted@.len() ==> (#[trigger] sorted@[t]).1 < n,
            sorted@.len() == n,
            n == groups@.len(),
            forall|i: int| 0 <= i < groups@.len() ==> (#[trigger] groups@[i]).occurrences@.len() > 0,
            forall|t: int|
                0 <= t < k ==> #[trigger] pairs@[t] == (presentation_key(kept@[t]) as u128, t as usize),
        decreases m - k,
    {
        proof {
            assert(kept@[k as int].occurrences@ == groups@[sorted@[kpos[k as int]].1 as int].occurrences@);
        }
        pairs.push((presentation_sort_key(&kept[k]), k));
        k = k + 1;
    }
    let order = sort_by_key(&pairs);
    proof {
        lemma_sorted_indices(pairs@, order@);
    }
    let mut result: Vec<DuplicateGroup> = Vec::new();
    let mut r: usize = 0;
    while r < m
        invariant
            m == kept@.len(),
            order@.len() == m,
            r <= m,
            result@.len() == r,
            forall|t: int|
                0 <= t < order@.len() ==> (#[trigger] order@[t]).1 < m && order@[t] == pairs@[order@[t].1 as int],
            forall|t: int|
                0 <= t < r ==> same_group(#[trigger] result@[t], kept@[order@[t].1 as int]),
        decreases m - r,
    {
        result.push(kept[order[r].1].clone());
        r = r + 1;
    }
    proof {
        assert forall|a: int, b: int|
            0 <= a < result@.len() && 0 <= b < result@.len() && a != b implies !same_group(
            #[trigger] result@[a],
            #[trigger] result@[b],
        ) by {
            assert(payloads(order@)[a] == order@[a].1 && payloads(order@)[b] == order@[b].1);
            assert(order@[a].1 != order@[b].1);
            assert(!same_group(kept@[order@[a].1 as int], kept@[order@[b].1 as int]));
        }
        assert forall|a: int, b: int|
            0 <= a < result@.len() && 0 <= b < result@.len() implies !group_covers(
            #[trigger] result@[a],
            #[trigger] result@[b],
        ) by {
            assert(!group_covers(kept@[order@[a].1 as int], kept@[order@[b].1 as int]));
        }
        assert forall|a: int, b: int| 0 <= a < b < result@.len() implies presentation_key(
            #[trigger] result@[a],
        ) <= presentation_key(#[trigger] result@[b]) by {
            assert(order@[a].0 <= order@[b].0);
            assert(order@[a] == pairs@[order@[a].1 as int]);
            assert(order@[b] == pairs@[order@[b].1 as int]);
        }
        assert forall|k: int| 0 <= k < result@.len() implies one_of(groups@, #[trigger] result@[k]) by {
            let j = order@[k].1 as int;
            assert(same_group(result@[k], kept@[j]));
            assert(same_group(kept@[j], groups@[sorted@[kpos[j]].1 as int]));
            assert(same_group(result@[k], groups@[sorted@[kpos[j]].1 as int]));
        }
        assert forall|i: int| 0 <= i < groups@.len() implies represented_in(result@, #[trigger] groups@[i]) by {
            assert(payloads(sorted@).contains(i as usize));
            let t = choose|t: int| 0 <= t < payloads(sorted@).len() && payloads(sorted@)[t] == i as usize;
            assert(sorted@[t].1 == i);
            let j = wit[t];
            assert(payloads(order@).contains(j as usize));
            let k = choose|k: int| 0 <= k < payloads(order@).len() && payloads(order@)[k] == j as usize;
            assert(order@[k].1 == j);
            assert(same_group(result@[k], kept@[j]));
            assert(same_group(groups@[i], result@[k]) || group_covers(result@[k], groups@[i]));
        }
    }
    result
}

// ----------------------------------------------------------------------
// Detection.
proof fn lemma_same_group_qualified(corpus: Corpus, options: DetectionOptions, a: DuplicateGroup, b: DuplicateGroup)
    requires
        same_group(a, b),
        qualified_group(corpus, options, b),
    ensures
        qualified_group(corpus, options, a),
{
}

/// The occurrences of `candidates`, in order.
fn occurrences_of(candidates: &Vec<CandidateOccurrence>) -> (occurrences: Vec<Occurrence>)
    ensures
        occurrences@.len() == candidates@.len(),
        forall|i: int| 0 <= i < candidates@.len() ==> #[trigger] occurrences@[i] == candidates@[i].occurrence,
{
    let mut occurrences: Vec<Occurrence> = Vec::new();
    let mut i: usize = 0;
    while i < candidates.len()
        invariant
            i <= candidates@.len(),
            occurrences@.len() == i,
            forall|t: int| 0 <= t < i ==> #[trigger] occurrences@[t] == candidates@[t].occurrence,
        decreases candidates@.len() - i,
    {
        occurrences.push(candidates[i].occurrence);
        i = i + 1;
    }
    occurrences
}

/// The candidate for the `i`th suffix of `interval`: the block of
/// `interval.length` lines where that suffix starts.
pub open spec fn interval_candidate(corpus: Corpus, suffixes: Seq<CorpusPos>, interval: LcpInterval, i: int) -> CandidateOccurrence {
    let p = suffixes[interval.left + i];
    CandidateOccurrence {
        corpus_start: p,
        occurrence: Occurrence {
            file: corpus.positions@[p as int]->0.file,
            normalized_start: corpus.positions@[p as int]->0.normalized_line,
            normalized_len: interval.length,
        },
    }
}

/// The candidates of all suffixes of `interval`, in suffix order.
#[verifier::opaque]
pub open spec fn interval_candidate_list(corpus: Corpus, suffixes: Seq<CorpusPos>, interval: LcpInterval) -> Seq<
    CandidateOccurrence,
> {
    Seq::new(
        (interval.right - interval.left + 1) as nat,
        |i: int| interval_candidate(corpus, suffixes, interval, i),
    )
}

/// Every suffix of `interval` starts a block on consecutive lines of one file.
pub open spec fn interval_candidates_valid(corpus: Corpus, suffixes: Seq<CorpusPos>, interval: LcpInterval) -> bool {
    forall|s: int|
        interval.left <= s <= interval.right ==> candidate_valid(
            corpus.positions@,
            #[trigger] suffixes[s] as int,
            interval.length as int,
        )
}

/// `kept` is what removing same-file overlaps leaves of `candidates`:
/// candidates only, in key order, without overlaps in a file, covering
/// every candidate.
#[verifier::opaque]
pub open spec fn overlap_free_cover(candidates: Seq<CandidateOccurrence>, kept: Seq<CandidateOccurrence>) -> bool {
    &&& forall|k: int| 0 <= k < kept.len() ==> candidates.contains(#[trigger] kept[k])
    &&& forall|a: int, b: int|
        0 <= a < b < kept.len() ==> candidate_key(#[trigger] kept[a]) <= candidate_key(#[trigger] kept[b])
    &&& forall|a: int, b: int|
        0 <= a < b < kept.len() && (#[trigger] kept[a]).occurrence.file == (#[trigger] kept[b]).occurrence.file
            ==> kept[a].occurrence.normalized_start + kept[a].occurrence.normalized_len
            <= kept[b].occurrence.normalized_start
    &&& forall|i: int|
        0 <= i < candidates.len() ==> exists|k: int|
            0 <= k < kept.len() && kept_covers(#[trigger] kept[k], #[trigger] candidates[i])
    &&& candidates.len() > 0 ==> kept.len() > 0
}

/// The candidates for the suffixes `suffixes[left..=right]`, each a block
/// of `length` lines.
fn interval_candidates(
    corpus: &Corpus,
    suffixes: &Vec<CorpusPos>,
    interval: LcpInterval,
) -> (result: Result<Vec<CandidateOccurrence>, DetectError>)
    requires
        interval.left <= interval.right < suffixes@.len(),
    ensures
        result matches Ok(candidates) ==> candidates@.len() == interval.right - interval.left + 1
            && forall|i: int|
            0 <= i < candidates@.len() ==> {
                let c = #[trigger] candidates@[i];
                &&& c.corpus_start == suffixes@[interval.left + i]
                &&& c.occurrence.normalized_len == interval.length
            },
        result is Ok <==> interval_candidates_valid(*corpus, suffixes@, interval),
        result matches Ok(candidates) ==> candidates@ == interval_candidate_list(*corpus, suffixes@, interval),
        result matches Err(e) ==> e is InvalidOccurrence,
{
    let mut candidates: Vec<CandidateOccurrence> = Vec::new();
    let length = suffixes.len();
    let mut s: usize = interval.left;
    while s <= interval.right
        invariant
            interval.left <= s <= interval.right + 1,
            interval.right < suffixes@.len(),
            length == suffixes@.len(),
            candidates@.len() == s - interval.left,
            forall|i: int|
                0 <= i < candidates@.len() ==> {
                    let c = #[trigger] candidates@[i];
                    &&& c.corpus_start == suffixes@[interval.left + i]
                    &&& c.occurrence.normalized_len == interval.length
                },
            forall|i: int|
                0 <= i < candidates@.len() ==> #[trigger] candidates@[i] == interval_candidate(
                    *corpus,
                    suffixes@,
                    interval,
                    i,
                ),
            forall|t: int|
                interval.left <= t < s ==> candidate_valid(
                    corpus.positions@,
                    #[trigger] suffixes@[t] as int,
                    interval.length as int,
                ),
        decreases interval.right + 1 - s,
    {
        match candidate_occurrence(corpus, suffixes[s], interval.length) {
            Ok(candidate) => {
                candidates.push(candidate);
            },
            Err(error) => {
                return Err(error);
            },
        }
        s = s + 1;
    }
    proof {
        reveal(interval_candidate_list);
        assert(candidates@ =~= interval_candidate_list(*corpus, suffixes@, interval));
    }
    Ok(candidates)
}

/// The occurrences of `candidates`, in order.
pub open spec fn candidate_occurrences(candidates: Seq<CandidateOccurrence>) -> Seq<Occurrence> {
    candidates.map_values(|c: CandidateOccurrence| c.occurrence)
}

/// Some candidate lies in another file than the first.
pub open spec fn spans_files(kept: Seq<CandidateOccurrence>) -> bool {
    kept.len() > 0 && exists|i: int| 0 <= i < kept.len() && (#[trigger] kept[i]).occurrence.file != kept[0].occurrence.file
}

/// Every candidate is preceded by the same line token, not a sentinel.
pub open spec fn extends_left(corpus: Corpus, kept: Seq<CandidateOccurrence>) -> bool {
    kept.len() > 0 && forall|i: int|
        0 <= i < kept.len() ==> {
            let start = (#[trigger] kept[i]).corpus_start as int;
            let first = kept[0].corpus_start as int;
            &&& start > 0
            &&& first > 0
            &&& corpus.tokens@[start - 1] < corpus.line_id_count
            &&& corpus.tokens@[start - 1] == corpus.tokens@[first - 1]
        }
}

/// Every candidate is followed, `length` positions on, by the same line
/// token, not a sentinel.
pub open spec fn extends_right(corpus: Corpus, kept: Seq<CandidateOccurrence>, length: u32) -> bool {
    kept.len() > 0 && forall|i: int|
        0 <= i < kept.len() ==> {
            let next = (#[trigger] kept[i]).corpus_start + length;
            let first = kept[0].corpus_start + length;
            &&& next < corpus.tokens@.len()
            &&& first < corpus.tokens@.len()
            &&& corpus.tokens@[next] < corpus.line_id_count
            &&& corpus.tokens@[next] == corpus.tokens@[first]
        }
}

/// The candidates are enough copies, in files the options allow, to be
/// looked at as a group.
pub open spec fn considered(kept: Seq<CandidateOccurrence>, options: DetectionOptions) -> bool {
    kept.len() >= 2 && (options.same_file || spans_files(kept))
}

/// The first candidate lies on lines of an existing file.
pub open spec fn first_in_file(corpus: Corpus, kept: Seq<CandidateOccurrence>) -> bool {
    let o = kept[0].occurrence;
    o.file < corpus.files@.len() && o.normalized_start + o.normalized_len <= corpus.files@[o.file as int].lines@.len()
}

/// Effective lines of the first candidate.
pub open spec fn first_effective(corpus: Corpus, kept: Seq<CandidateOccurrence>) -> nat {
    let o = kept[0].occurrence;
    effective_count(
        corpus.files@[o.file as int].lines@,
        o.normalized_start as int,
        o.normalized_start + o.normalized_len,
    )
}

/// The candidates form a reported group: enough copies, with enough
/// effective lines, and the block cannot grow on either side.
pub open spec fn forms_group(corpus: Corpus, kept: Seq<CandidateOccurrence>, length: u32, options: DetectionOptions) -> bool {
    &&& considered(kept, options)
    &&& first_in_file(corpus, kept)
    &&& first_effective(corpus, kept) >= options.min_lines
    &&& !extends_left(corpus, kept)
    &&& !extends_right(corpus, kept, length)
}

/// `g` is the group that the candidates form.
pub open spec fn group_from(corpus: Corpus, kept: Seq<CandidateOccurrence>, length: u32, g: DuplicateGroup) -> bool {
    &&& g.effective_lines == first_effective(corpus, kept)
    &&& g.normalized_len == length
    &&& g.occurrences@ == candidate_occurrences(kept)
}

/// What looking at `kept` as a group yields: an error when the first copy
/// lies outside its file, else the group exactly when the copies form one.
pub open spec fn group_outcome(
    corpus: Corpus,
    kept: Seq<CandidateOccurrence>,
    length: u32,
    options: DetectionOptions,
    result: Result<Option<DuplicateGroup>, DetectError>,
) -> bool {
    &&& (result is Err <==> considered(kept, options) && !first_in_file(corpus, kept))
    &&& result matches Ok(found) ==> (found is Some <==> forms_group(corpus, kept, length, options))
    &&& result matches Ok(Some(g)) ==> group_from(corpus, kept, length, g)
}

/// The group that `kept`, the non-overlapping copies of one repeated block
/// of `length` lines, forms, if it qualifies and is maximal.
fn qualifying_group(
    corpus: &Corpus,
    kept: &Vec<CandidateOccurrence>,
    length: u32,
    options: DetectionOptions,
) -> (result: Result<Option<DuplicateGroup>, DetectError>)
    requires
        length >= options.min_lines,
        forall|i: int|
            0 <= i < kept@.len() ==> (#[trigger] kept@[i]).occurrence.normalized_len == length
                && kept@[i].corpus_start < corpus.tokens@.len(),
        forall|a: int, b: int|
            0 <= a < b < kept@.len() && (#[trigger] kept@[a]).occurrence.file == (
            #[trigger] kept@[b]).occurrence.file ==> kept@[a].occurrence.normalized_start
                + kept@[a].occurrence.normalized_len <= kept@[b].occurrence.normalized_start,
    ensures
        result matches Ok(Some(group)) ==> qualified_group(*corpus, options, group),
        result matches Err(e) ==> e is InvalidOccurrence,
        group_outcome(*corpus, kept@, length, options, result),
{
    if kept.len() < 2 {
        return Ok(None);
    }
    if !options.same_file && !spans_multiple_files(kept) {
        return Ok(None);
    }
    let effective_lines = match effective_line_count(corpus, kept[0].occurrence) {
        Ok(count) => count,
        Err(error) => {
            return Err(error);
        },
    };
    if effective_lines < options.min_lines {
        return Ok(None);
    }
    // A maximal repeated block cannot be extended identically to the left
    // or to the right across every occurrence.
    if all_extend_left(corpus, kept) || all_extend_right(corpus, kept, length) {
        return Ok(None);
    }
    let occurrences = occurrences_of(kept);
    let group = DuplicateGroup { effective_lines, normalized_len: length, occurrences };
    proof {
        assert(group.occurrences@ =~= candidate_occurrences(kept@));
        let o = group.occurrences@;
        assert(o[0] == kept@[0].occurrence);
        assert forall|a: int, b: int|
            0 <= a < o.len() && 0 <= b < o.len() && a != b && #[trigger] o[a].file == #[trigger] o[b].file implies o[a].normalized_start
            + o[a].normalized_len <= o[b].normalized_start || o[b].normalized_start
            + o[b].normalized_len <= o[a].normalized_start by {
            assert(o[a] == kept@[a].occurrence && o[b] == kept@[b].occurrence);
            if a < b {
                assert(kept@[a].occurrence.file == kept@[b].occurrence.file);
            } else {
                assert(kept@[b].occurrence.file == kept@[a].occurrence.file);
            }
        }
        assert forall|i: int| 0 <= i < o.len() implies (#[trigger] o[i]).normalized_len
            == group.normalized_len by {
            assert(o[i] == kept@[i].occurrence);
        }
        if !options.same_file {
            let i = choose|i: int|
                0 <= i < kept@.len() && (#[trigger] kept@[i]).occurrence.file != kept@[0].occurrence.file;
            assert(o[i] == kept@[i].occurrence);
        }
    }
    Ok(Some(group))
}

/// The group that `interval` describes, if it qualifies and is maximal.
fn interval_group(
    corpus: &Corpus,
    suffixes: &Vec<CorpusPos>,
    interval: LcpInterval,
    options: DetectionOptions,
) -> (result: Result<Option<DuplicateGroup>, DetectError>)
    requires
        interval.left <= interval.right < suffixes@.len(),
        interval.length >= options.min_lines,
        forall|i: int| 0 <= i < suffixes@.len() ==> #[trigger] suffixes@[i] < corpus.tokens@.len(),
    ensures
        result matches Ok(Some(group)) ==> qualified_group(*corpus, options, group),
        result matches Err(e) ==> e is InvalidOccurrence,
        !interval_candidates_valid(*corpus, suffixes@, interval) ==> result is Err,
        interval_candidates_valid(*corpus, suffixes@, interval) ==> exists|kept: Seq<CandidateOccurrence>|
            overlap_free_cover(interval_candidate_list(*corpus, suffixes@, interval), kept) && group_outcome(
                *corpus,
                kept,
                interval.length,
                options,
                result,
            ),
{
    let candidates = match interval_candidates(corpus, suffixes, interval) {
        Ok(candidates) => candidates,
        Err(error) => {
            return Err(error);
        },
    };
    let kept = remove_same_file_overlaps(candidates);
    proof {
        assert forall|i: int| 0 <= i < kept@.len() implies (#[trigger] kept@[i]).occurrence.normalized_len
            == interval.length && kept@[i].corpus_start < corpus.tokens@.len() by {
            assert(candidates@.contains(kept@[i]));
            let j = choose|j: int| 0 <= j < candidates@.len() && candidates@[j] == kept@[i];
            assert(candidates@[j].corpus_start == suffixes@[interval.left + j]);
        }
    }
    qualifying_group(corpus, &kept, interval.length, options)
}

proof fn lemma_lcp_at(s: Seq<u32>, i: int, j: int, len: nat, k: int)
    requires
        0 <= i,
        0 <= j,
        lcp_len(s, i, j) >= len,
        0 <= k < len,
    ensures
        i + k < s.len(),
        j + k < s.len(),
        s[i + k] == s[j + k],
    decreases k,
{
    assert(0 <= i < s.len() && 0 <= j < s.len() && s[i] == s[j]);
    if k > 0 {
        lemma_lcp_at(s, i + 1, j + 1, (len - 1) as nat, k - 1);
    }
}

proof fn lemma_line_run(corpus: Corpus, p: int, k: int)
    requires
        corpus_valid(corpus),
        0 <= p,
        0 <= k,
        p + k < corpus.positions@.len(),
        forall|t: int| 0 <= t <= k ==> (#[trigger] corpus.positions@[p + t]) is Some,
    ensures
        corpus.positions@[p + k]->0.file == corpus.positions@[p]->0.file,
        corpus.positions@[p + k]->0.normalized_line == corpus.positions@[p]->0.normalized_line + k,
    decreases k,
{
    if k > 0 {
        lemma_line_run(corpus, p, k - 1);
        assert(corpus.positions@[p + (k - 1)] is Some);
        assert(corpus.positions@[p + k] is Some);
        lemma_position_facts(corpus, p + k - 1, p + k - 1);
    }
}

/// A block that repeats elsewhere in a valid corpus lies on consecutive
/// lines of one file: a gap token occurs once and no line token equals it.
proof fn lemma_repeated_block(corpus: Corpus, p: int, q: int, len: nat)
    requires
        corpus_valid(corpus),
        corpus.tokens@.len() <= u32::MAX,
        0 <= p,
        0 <= q,
        p != q,
        len >= 1,
        lcp_len(corpus.tokens@, p, q) >= len,
    ensures
        candidate_valid(corpus.positions@, p, len as int),
        corpus.positions@[p]->0.file < corpus.files@.len(),
        corpus.positions@[p]->0.normalized_line + len <= corpus.files@[corpus.positions@[p]->0.file as int].lines@.len(),
        forall|k: int|
            0 <= k < len ==> p + k < corpus.positions@.len() && (#[trigger] corpus.positions@[p + k]) is Some
                && corpus.positions@[p + k]->0.file == corpus.positions@[p]->0.file && corpus.positions@[p
                + k]->0.normalized_line == corpus.positions@[p]->0.normalized_line + k,
        in_one_segment(
            corpus.files@[corpus.positions@[p]->0.file as int],
            corpus.positions@[p]->0.normalized_line as int,
            len as int,
        ),
{
    let t = corpus.tokens@;
    let ps = corpus.positions@;
    lemma_corpus_lengths(corpus);
    assert forall|k: int| 0 <= k <= len - 1 implies (#[trigger] ps[p + k]) is Some by {
        lemma_lcp_at(t, p, q, len, k);
        lemma_position_facts(corpus, p + k, q + k);
        lemma_position_facts(corpus, q + k, p + k);
    }
    let end = p + len - 1;
    lemma_lcp_at(t, p, q, len, len - 1);
    lemma_line_run(corpus, p, len - 1);
    assert(ps[p + 0] is Some);
    lemma_position_facts(corpus, end, end);
    lemma_position_facts(corpus, p, p);
    assert forall|k: int| 0 <= k < len implies p + k < ps.len() && (#[trigger] ps[p + k]) is Some && ps[p + k]->0.file
        == ps[p]->0.file && ps[p + k]->0.normalized_line == ps[p]->0.normalized_line + k by {
        lemma_lcp_at(t, p, q, len, k);
        assert forall|u: int| 0 <= u <= k implies (#[trigger] ps[p + u]) is Some by {
            assert(0 <= u <= len - 1);
        }
        lemma_line_run(corpus, p, k);
    }
    lemma_run_in_segment(corpus, p, len as int);
}

/// Every occurrence of `g` lies on lines of one segment of its file, holds
/// the normalized text of the first, and the occurrences ascend by file and
/// start line.
pub open spec fn sound_group(corpus: Corpus, g: DuplicateGroup) -> bool {
    let occ = g.occurrences@;
    &&& forall|a: int, b: int|
        0 <= a < b < occ.len() ==> (#[trigger] occ[a]).file < (#[trigger] occ[b]).file || (occ[a].file
            == occ[b].file && occ[a].normalized_start < occ[b].normalized_start)
    &&& forall|i: int|
        0 <= i < occ.len() ==> {
            let o = #[trigger] occ[i];
            &&& o.normalized_len >= 1
            &&& o.file < corpus.files@.len()
            &&& o.normalized_start + o.normalized_len <= corpus.files@[o.file as int].lines@.len()
            &&& o.normalized_len == occ[0].normalized_len
            &&& in_one_segment(corpus.files@[o.file as int], o.normalized_start as int, o.normalized_len as int)
            &&& forall|k: int|
                0 <= k < o.normalized_len ==> #[trigger] line_text(
                    corpus.files@[o.file as int],
                    o.normalized_start + k,
                ) == line_text(corpus.files@[occ[0].file as int], occ[0].normalized_start + k)
        }
}

/// Each suffix of an LCP interval starts with the same `length` tokens.
proof fn lemma_interval_tokens(corpus: Corpus, sa: Seq<u32>, lcp: Seq<u32>, interval: LcpInterval, s: int, k: int)
    requires
        is_permutation(corpus.tokens@, sa),
        lcp_array_of(corpus.tokens@, sa, lcp),
        lcp_interval(lcp, interval),
        interval.left <= s <= interval.right,
        0 <= k < interval.length,
    ensures
        sa[s] + k < corpus.tokens@.len(),
        sa[interval.left as int] + k < corpus.tokens@.len(),
        corpus.tokens@[sa[s] + k] == corpus.tokens@[sa[interval.left as int] + k],
    decreases s - interval.left,
{
    let t = corpus.tokens@;
    let l = interval.left as int;
    assert(lcp[l + 1] >= interval.length);
    lemma_lcp_at(t, sa[l] as int, sa[l + 1] as int, interval.length as nat, k);
    if s > l {
        assert(lcp[s] >= interval.length);
        lemma_lcp_at(t, sa[s - 1] as int, sa[s] as int, interval.length as nat, k);
        lemma_interval_tokens(corpus, sa, lcp, interval, s - 1, k);
    }
}

/// The candidate of suffix `s` of an interval holds the normalized text of
/// the candidate of its first suffix.
#[verifier::spinoff_prover]
proof fn lemma_candidate_text(corpus: Corpus, sa: Seq<u32>, lcp: Seq<u32>, interval: LcpInterval, s: int)
    requires
        corpus_valid(corpus),
        corpus.tokens@.len() <= u32::MAX,
        is_permutation(corpus.tokens@, sa),
        lcp_array_of(corpus.tokens@, sa, lcp),
        lcp_interval(lcp, interval),
        interval.left <= s <= interval.right,
    ensures
        ({
            let c = interval_candidate(corpus, sa, interval, s - interval.left);
            let f = interval_candidate(corpus, sa, interval, 0);
            &&& c.occurrence.file < corpus.files@.len()
            &&& c.occurrence.normalized_start + c.occurrence.normalized_len <= corpus.files@[c.occurrence.file as int].lines@.len()
            &&& in_one_segment(
                corpus.files@[c.occurrence.file as int],
                c.occurrence.normalized_start as int,
                c.occurrence.normalized_len as int,
            )
            &&& f.occurrence.file < corpus.files@.len()
            &&& forall|k: int|
                0 <= k < interval.length ==> #[trigger] line_text(
                    corpus.files@[c.occurrence.file as int],
                    c.occurrence.normalized_start + k,
                ) == line_text(corpus.files@[f.occurrence.file as int], f.occurrence.normalized_start + k)
        }),
{
    let t = corpus.tokens@;
    let len = interval.length as nat;
    let l = interval.left as int;
    let partner = |x: int| if x > l { x - 1 } else { x + 1 };
    assert(sa[s] != sa[partner(s)]);
    assert(sa[l] != sa[l + 1]);
    if s > l {
        assert(lcp[s] >= interval.length);
        lemma_lcp_symmetric(t, sa[s - 1] as int, sa[s] as int);
    } else {
        assert(lcp[s + 1] >= interval.length);
    }
    lemma_repeated_block(corpus, sa[s] as int, sa[partner(s)] as int, len);
    assert(lcp[l + 1] >= interval.length);
    lemma_repeated_block(corpus, sa[l] as int, sa[l + 1] as int, len);
    assert forall|k: int| 0 <= k < interval.length implies #[trigger] line_text(
        corpus.files@[interval_candidate(corpus, sa, interval, s - l).occurrence.file as int],
        interval_candidate(corpus, sa, interval, s - l).occurrence.normalized_start + k,
    ) == line_text(
        corpus.files@[interval_candidate(corpus, sa, interval, 0).occurrence.file as int],
        interval_candidate(corpus, sa, interval, 0).occurrence.normalized_start + k,
    ) by {
        lemma_interval_tokens(corpus, sa, lcp, interval, s, k);
        assert(corpus.positions@[sa[s] + k] is Some);
        assert(corpus.positions@[sa[l] + k] is Some);
        lemma_same_token_same_text(corpus, sa[s] + k, sa[l] + k);
    }
}

/// A group formed from the copies kept of an interval of a valid corpus is
/// sound.
#[verifier::spinoff_prover]
#[verifier::rlimit(30)]
proof fn lemma_kept_sound(
    corpus: Corpus,
    sa: Seq<u32>,
    lcp: Seq<u32>,
    interval: LcpInterval,
    kept: Seq<CandidateOccurrence>,
    g: DuplicateGroup,
)
    requires
        corpus_valid(corpus),
        corpus.tokens@.len() <= u32::MAX,
        is_permutation(corpus.tokens@, sa),
        lcp_array_of(corpus.tokens@, sa, lcp),
        lcp_interval(lcp, interval),
        overlap_free_cover(interval_candidate_list(corpus, sa, interval), kept),
        group_from(corpus, kept, interval.length, g),
    ensures
        sound_group(corpus, g),
{
    reveal(overlap_free_cover);
    reveal(interval_candidate_list);
    let cands = interval_candidate_list(corpus, sa, interval);
    let occ = g.occurrences@;
    let l = interval.left as int;
    assert(occ == candidate_occurrences(kept));
    assert forall|i: int| 0 <= i < kept.len() implies exists|j: int|
        0 <= j <= interval.right - l && #[trigger] kept[i] == #[trigger] interval_candidate(corpus, sa, interval, j) by {
        assert(cands.contains(kept[i]));
        let j = choose|j: int| 0 <= j < cands.len() && cands[j] == kept[i];
        assert(cands[j] == interval_candidate(corpus, sa, interval, j));
    }
    assert forall|a: int, b: int| 0 <= a < b < occ.len() implies (#[trigger] occ[a]).file < (#[trigger] occ[b]).file
        || (occ[a].file == occ[b].file && occ[a].normalized_start < occ[b].normalized_start) by {
        assert(occ[a] == kept[a].occurrence && occ[b] == kept[b].occurrence);
        assert(candidate_key(kept[a]) <= candidate_key(kept[b]));
        lemma_candidate_key_order(kept[a], kept[b]);
        let ja = choose|j: int| 0 <= j <= interval.right - l && kept[a] == #[trigger] interval_candidate(corpus, sa, interval, j);
        assert(kept[a].occurrence.normalized_len == interval.length);
        assert(interval.length >= 1);
    }
    if occ.len() > 0 {
        let j0 = choose|j: int| 0 <= j <= interval.right - l && kept[0] == #[trigger] interval_candidate(corpus, sa, interval, j);
        lemma_candidate_text(corpus, sa, lcp, interval, l + j0);
        assert forall|i: int| 0 <= i < occ.len() implies {
            let o = #[trigger] occ[i];
            &&& o.normalized_len >= 1
            &&& o.file < corpus.files@.len()
            &&& o.normalized_start + o.normalized_len <= corpus.files@[o.file as int].lines@.len()
            &&& o.normalized_len == occ[0].normalized_len
            &&& in_one_segment(corpus.files@[o.file as int], o.normalized_start as int, o.normalized_len as int)
            &&& forall|k: int|
                0 <= k < o.normalized_len ==> #[trigger] line_text(
                    corpus.files@[o.file as int],
                    o.normalized_start + k,
                ) == line_text(corpus.files@[occ[0].file as int], occ[0].normalized_start + k)
        } by {
            let ji = choose|j: int| 0 <= j <= interval.right - l && kept[i] == #[trigger] interval_candidate(corpus, sa, interval, j);
            lemma_candidate_text(corpus, sa, lcp, interval, l + ji);
            assert(occ[i] == kept[i].occurrence);
            assert(occ[0] == kept[0].occurrence);
        }
    }
}

/// Every interval of a valid corpus's LCP array lies on lines of its files,
/// so looking at it never fails.
proof fn lemma_interval_ready(corpus: Corpus, sa: Seq<u32>, lcp: Seq<u32>, interval: LcpInterval, kept: Seq<
    CandidateOccurrence,
>)
    requires
        corpus_valid(corpus),
        corpus.tokens@.len() <= u32::MAX,
        is_permutation(corpus.tokens@, sa),
        lcp_array_of(corpus.tokens@, sa, lcp),
        lcp_interval(lcp, interval),
    ensures
        interval_candidates_valid(corpus, sa, interval),
        overlap_free_cover(interval_candidate_list(corpus, sa, interval), kept) && kept.len() > 0 ==> first_in_file(
            corpus,
            kept,
        ),
{
    let t = corpus.tokens@;
    let len = interval.length as nat;
    assert forall|s: int| interval.left <= s <= interval.right implies candidate_valid(
        corpus.positions@,
        #[trigger] sa[s] as int,
        interval.length as int,
    ) && corpus.positions@[sa[s] as int]->0.file < corpus.files@.len() && corpus.positions@[sa[s] as int]->0.normalized_line
        + len <= corpus.files@[corpus.positions@[sa[s] as int]->0.file as int].lines@.len() by {
        if s > interval.left {
            assert(lcp[s] >= interval.length);
            lemma_lcp_symmetric(t, sa[s - 1] as int, sa[s] as int);
            assert(sa[s - 1] != sa[s]);
            lemma_repeated_block(corpus, sa[s] as int, sa[s - 1] as int, len);
        } else {
            assert(lcp[s + 1] >= interval.length);
            assert(sa[s + 1] != sa[s]);
            lemma_repeated_block(corpus, sa[s] as int, sa[s + 1] as int, len);
        }
    }
    if overlap_free_cover(interval_candidate_list(corpus, sa, interval), kept) && kept.len() > 0 {
        reveal(overlap_free_cover);
        reveal(interval_candidate_list);
        let cands = interval_candidate_list(corpus, sa, interval);
        assert(cands.contains(kept[0]));
        let i = choose|i: int| 0 <= i < cands.len() && cands[i] == kept[0];
        assert(cands[i] == interval_candidate(corpus, sa, interval, i));
        let s = interval.left + i;
        assert(interval.left <= s <= interval.right);
        assert(candidate_valid(corpus.positions@, sa[s] as int, interval.length as int));
    }
}

/// The copies of `interval` all lie in files, and the group they form,
/// when they form one, is represented in `groups`.
#[verifier::opaque]
pub open spec fn interval_found(
    corpus: Corpus,
    suffixes: Seq<CorpusPos>,
    interval: LcpInterval,
    options: DetectionOptions,
    groups: Seq<DuplicateGroup>,
) -> bool {
    &&& interval_candidates_valid(corpus, suffixes, interval)
    &&& exists|kept: Seq<CandidateOccurrence>|
        #![trigger overlap_free_cover(interval_candidate_list(corpus, suffixes, interval), kept)]
        overlap_free_cover(interval_candidate_list(corpus, suffixes, interval), kept) && !(considered(kept, options)
            && !first_in_file(corpus, kept)) && (forms_group(corpus, kept, interval.length, options) ==> exists|
            g: DuplicateGroup,
        | group_from(corpus, kept, interval.length, g) && #[trigger] represented_in(groups, g))
}

/// Some copy of `interval` lies outside the files, or the first of those
/// kept does.
pub open spec fn interval_fails(
    corpus: Corpus,
    suffixes: Seq<CorpusPos>,
    interval: LcpInterval,
    options: DetectionOptions,
) -> bool {
    ||| !interval_candidates_valid(corpus, suffixes, interval)
    ||| exists|kept: Seq<CandidateOccurrence>|
        overlap_free_cover(interval_candidate_list(corpus, suffixes, interval), kept) && considered(kept, options)
            && !first_in_file(corpus, kept)
}

proof fn lemma_covers_trans(a: DuplicateGroup, b: DuplicateGroup, c: DuplicateGroup)
    requires
        group_covers(a, b),
        group_covers(b, c),
    ensures
        group_covers(a, c),
{
    assert forall|i: int| 0 <= i < c.occurrences@.len() implies covered_by(
        a.occurrences@,
        #[trigger] c.occurrences@[i],
    ) by {
        assert(covered_by(b.occurrences@, c.occurrences@[i]));
        let j = choose|j: int| 0 <= j < b.occurrences@.len() && occurrence_covers(#[trigger] b.occurrences@[j], c.occurrences@[i]);
        assert(covered_by(a.occurrences@, b.occurrences@[j]));
        let k = choose|k: int| 0 <= k < a.occurrences@.len() && occurrence_covers(#[trigger] a.occurrences@[k], b.occurrences@[j]);
        assert(occurrence_covers(a.occurrences@[k], c.occurrences@[i]));
    }
}

/// What `groups` represents, every group representing all of `groups` also
/// represents.
proof fn lemma_represented_trans(result: Seq<DuplicateGroup>, groups: Seq<DuplicateGroup>, g: DuplicateGroup)
    requires
        represented_in(groups, g),
        forall|i: int| 0 <= i < groups.len() ==> represented_in(result, #[trigger] groups[i]),
    ensures
        represented_in(result, g),
{
    let k = choose|k: int| 0 <= k < groups.len() && (same_group(g, #[trigger] groups[k]) || group_covers(groups[k], g));
    assert(represented_in(result, groups[k]));
    let m = choose|m: int|
        0 <= m < result.len() && (same_group(groups[k], #[trigger] result[m]) || group_covers(result[m], groups[k]));
    if same_group(g, groups[k]) {
        if same_group(groups[k], result[m]) {
            assert(same_group(g, result[m]));
        } else {
            assert(group_covers(result[m], g));
        }
    } else {
        if same_group(groups[k], result[m]) {
            assert(group_covers(result[m], g));
        } else {
            lemma_covers_trans(result[m], groups[k], g);
        }
    }
}

/// Found intervals stay found as groups are added.
proof fn lemma_found_grows(
    corpus: Corpus,
    suffixes: Seq<CorpusPos>,
    interval: LcpInterval,
    options: DetectionOptions,
    before: Seq<DuplicateGroup>,
    after: Seq<DuplicateGroup>,
)
    requires
        interval_found(corpus, suffixes, interval, options, before),
        before.len() <= after.len(),
        forall|i: int| 0 <= i < before.len() ==> #[trigger] after[i] == before[i],
    ensures
        interval_found(corpus, suffixes, interval, options, after),
{
    reveal(interval_found);
    let cands = interval_candidate_list(corpus, suffixes, interval);
    let kept = choose|kept: Seq<CandidateOccurrence>|
        #![trigger overlap_free_cover(cands, kept)]
        overlap_free_cover(cands, kept) && !(considered(kept, options) && !first_in_file(corpus, kept)) && (forms_group(
            corpus,
            kept,
            interval.length,
            options,
        ) ==> exists|g: DuplicateGroup| group_from(corpus, kept, interval.length, g) && #[trigger] represented_in(before, g));
    if forms_group(corpus, kept, interval.length, options) {
        let g = choose|g: DuplicateGroup| group_from(corpus, kept, interval.length, g) && #[trigger] represented_in(before, g);
        let k = choose|k: int| 0 <= k < before.len() && (same_group(g, #[trigger] before[k]) || group_covers(before[k], g));
        assert(after[k] == before[k]);
        assert(represented_in(after, g));
    }
}

/// The intervals found in `groups` are found in every set that represents it.
proof fn lemma_found_represented(
    corpus: Corpus,
    suffixes: Seq<CorpusPos>,
    interval: LcpInterval,
    options: DetectionOptions,
    groups: Seq<DuplicateGroup>,
    result: Seq<DuplicateGroup>,
)
    requires
        interval_found(corpus, suffixes, interval, options, groups),
        forall|i: int| 0 <= i < groups.len() ==> represented_in(result, #[trigger] groups[i]),
    ensures
        interval_found(corpus, suffixes, interval, options, result),
{
    reveal(interval_found);
    let cands = interval_candidate_list(corpus, suffixes, interval);
    let kept = choose|kept: Seq<CandidateOccurrence>|
        #![trigger overlap_free_cover(cands, kept)]
        overlap_free_cover(cands, kept) && !(considered(kept, options) && !first_in_file(corpus, kept)) && (forms_group(
            corpus,
            kept,
            interval.length,
            options,
        ) ==> exists|g: DuplicateGroup| group_from(corpus, kept, interval.length, g) && #[trigger] represented_in(groups, g));
    if forms_group(corpus, kept, interval.length, options) {
        let g = choose|g: DuplicateGroup| group_from(corpus, kept, interval.length, g) && #[trigger] represented_in(groups, g);
        lemma_represented_trans(result, groups, g);
    }
}

/// An interval whose group is looked at without error is found once the
/// group it yields, if any, is the last of `groups`.
proof fn lemma_found_now(
    corpus: Corpus,
    suffixes: Seq<CorpusPos>,
    interval: LcpInterval,
    options: DetectionOptions,
    outcome: Result<Option<DuplicateGroup>, DetectError>,
    groups: Seq<DuplicateGroup>,
)
    requires
        interval_candidates_valid(corpus, suffixes, interval),
        exists|kept: Seq<CandidateOccurrence>|
            overlap_free_cover(interval_candidate_list(corpus, suffixes, interval), kept) && group_outcome(
                corpus,
                kept,
                interval.length,
                options,
                outcome,
            ),
        outcome is Ok,
        outcome matches Ok(Some(g)) ==> groups.len() > 0 && groups.last() == g,
    ensures
        interval_found(corpus, suffixes, interval, options, groups),
{
    reveal(interval_found);
    let cands = interval_candidate_list(corpus, suffixes, interval);
    let kept = choose|kept: Seq<CandidateOccurrence>|
        overlap_free_cover(cands, kept) && group_outcome(corpus, kept, interval.length, options, outcome);
    if forms_group(corpus, kept, interval.length, options) {
        let g = groups.last();
        assert(same_group(g, groups[groups.len() - 1]));
        assert(represented_in(groups, g));
    }
    assert(overlap_free_cover(cands, kept) && !(considered(kept, options) && !first_in_file(corpus, kept)) && (
    forms_group(corpus, kept, interval.length, options) ==> exists|g: DuplicateGroup|
        group_from(corpus, kept, interval.length, g) && #[trigger] represented_in(groups, g)));
}

/// Turns each LCP interval into a group of duplicate occurrences, keeps
/// those that qualify and are maximal, and canonicalizes the result.
#[verifier::spinoff_prover]
/// `g` is the group formed by a maximal LCP interval of at least
/// `options.min_lines` lines: the non-overlapping copies of its block,
/// when they qualify and the block cannot grow on either side.
pub open spec fn formed_by_interval(
    corpus: Corpus,
    suffixes: Seq<CorpusPos>,
    lcp: Seq<u32>,
    options: DetectionOptions,
    g: DuplicateGroup,
) -> bool {
    exists|interval: LcpInterval, kept: Seq<CandidateOccurrence>|
        #![trigger lcp_interval(lcp, interval), overlap_free_cover(interval_candidate_list(corpus, suffixes, interval), kept)]
        lcp_interval(lcp, interval) && interval.length >= options.min_lines && interval_candidates_valid(
            corpus,
            suffixes,
            interval,
        ) && overlap_free_cover(interval_candidate_list(corpus, suffixes, interval), kept) && forms_group(
            corpus,
            kept,
            interval.length,
            options,
        ) && group_from(corpus, kept, interval.length, g)
}

/// `g` is formed by a maximal LCP interval and no group so formed covers
/// it.
pub open spec fn maximal_formed(
    corpus: Corpus,
    suffixes: Seq<CorpusPos>,
    lcp: Seq<u32>,
    options: DetectionOptions,
    g: DuplicateGroup,
) -> bool {
    &&& formed_by_interval(corpus, suffixes, lcp, options, g)
    &&& !exists|h: DuplicateGroup|
        #[trigger] group_covers(h, g) && formed_by_interval(corpus, suffixes, lcp, options, h)
}

/// The candidates of an interval of a valid corpus are distinct blocks of
/// the interval's length.
proof fn lemma_interval_distinct(corpus: Corpus, sa: Seq<u32>, interval: LcpInterval)
    requires
        corpus_valid(corpus),
        is_permutation(corpus.tokens@, sa),
        interval.length >= 1,
        interval.left <= interval.right < sa.len(),
        interval_candidates_valid(corpus, sa, interval),
    ensures
        distinct_candidates(interval_candidate_list(corpus, sa, interval), interval.length),
{
    reveal(interval_candidate_list);
    lemma_corpus_lengths(corpus);
    let cands = interval_candidate_list(corpus, sa, interval);
    let l = interval.left as int;
    assert forall|i: int, j: int|
        0 <= i < cands.len() && 0 <= j < cands.len() && cands[i] != cands[j] implies !(
        (#[trigger] cands[i]).occurrence.file == (#[trigger] cands[j]).occurrence.file
            && cands[i].occurrence.normalized_start == cands[j].occurrence.normalized_start) by {
        let (p, q) = (sa[l + i] as int, sa[l + j] as int);
        assert(i != j);
        assert(sa[l + i] != sa[l + j]);
        assert(candidate_valid(corpus.positions@, sa[l + i] as int, interval.length as int));
        assert(candidate_valid(corpus.positions@, sa[l + j] as int, interval.length as int));
        if p < q {
            lemma_positions_ascending(corpus, p, q);
        } else {
            lemma_positions_ascending(corpus, q, p);
        }
    }
}

/// A group that two records determine is the same group.
proof fn lemma_group_from_fields(corpus: Corpus, kept: Seq<CandidateOccurrence>, length: u32, a: DuplicateGroup, b: DuplicateGroup)
    requires
        group_from(corpus, kept, length, a),
        group_from(corpus, kept, length, b),
    ensures
        same_group(a, b),
{
}

/// Every group formed by an interval is the result's or covered by one of
/// the result's groups.
proof fn lemma_formed_represented(
    corpus: Corpus,
    sa: Seq<u32>,
    lcp: Seq<u32>,
    options: DetectionOptions,
    groups: Seq<DuplicateGroup>,
    h: DuplicateGroup,
)
    requires
        corpus_valid(corpus),
        is_permutation(corpus.tokens@, sa),
        lcp.len() == sa.len(),
        forall|interval: LcpInterval|
            #[trigger] lcp_interval(lcp, interval) && interval.length >= options.min_lines ==> interval_found(
                corpus,
                sa,
                interval,
                options,
                groups,
            ),
        formed_by_interval(corpus, sa, lcp, options, h),
    ensures
        represented_in(groups, h),
{
    let (iv, kept) = choose|iv: LcpInterval, kept: Seq<CandidateOccurrence>|
        #![trigger lcp_interval(lcp, iv), overlap_free_cover(interval_candidate_list(corpus, sa, iv), kept)]
        lcp_interval(lcp, iv) && iv.length >= options.min_lines && interval_candidates_valid(corpus, sa, iv)
            && overlap_free_cover(interval_candidate_list(corpus, sa, iv), kept) && forms_group(corpus, kept, iv.length, options)
            && group_from(corpus, kept, iv.length, h);
    assert(interval_found(corpus, sa, iv, options, groups));
    reveal(interval_found);
    let other = choose|k2: Seq<CandidateOccurrence>|
        #![trigger overlap_free_cover(interval_candidate_list(corpus, sa, iv), k2)]
        overlap_free_cover(interval_candidate_list(corpus, sa, iv), k2) && !(considered(k2, options) && !first_in_file(
            corpus,
            k2,
        )) && (forms_group(corpus, k2, iv.length, options) ==> exists|g: DuplicateGroup|
            group_from(corpus, k2, iv.length, g) && #[trigger] represented_in(groups, g));
    lemma_interval_distinct(corpus, sa, iv);
    lemma_cover_unique(interval_candidate_list(corpus, sa, iv), iv.length, kept, other);
    let g = choose|g: DuplicateGroup| group_from(corpus, other, iv.length, g) && #[trigger] represented_in(groups, g);
    lemma_group_from_fields(corpus, kept, iv.length, g, h);
    let k = choose|k: int| 0 <= k < groups.len() && (same_group(g, #[trigger] groups[k]) || group_covers(groups[k], g));
    assert(same_group(h, groups[k]) || group_covers(groups[k], h));
}

/// A canonical result whose groups are all formed by intervals, and that
/// holds or covers every group an interval forms, holds exactly the formed
/// groups that no formed group covers.
pub proof fn lemma_result_maximal(
    corpus: Corpus,
    sa: Seq<u32>,
    lcp: Seq<u32>,
    options: DetectionOptions,
    groups: Seq<DuplicateGroup>,
)
    requires
        corpus_valid(corpus),
        is_permutation(corpus.tokens@, sa),
        lcp.len() == sa.len(),
        canonical_groups(groups),
        forall|k: int| 0 <= k < groups.len() ==> formed_by_interval(corpus, sa, lcp, options, #[trigger] groups[k]),
        forall|interval: LcpInterval|
            #[trigger] lcp_interval(lcp, interval) && interval.length >= options.min_lines ==> interval_found(
                corpus,
                sa,
                interval,
                options,
                groups,
            ),
    ensures
        forall|k: int| 0 <= k < groups.len() ==> maximal_formed(corpus, sa, lcp, options, #[trigger] groups[k]),
        forall|h: DuplicateGroup| #[trigger] maximal_formed(corpus, sa, lcp, options, h) ==> one_of(groups, h),
{
    assert forall|k: int| 0 <= k < groups.len() implies maximal_formed(corpus, sa, lcp, options, #[trigger] groups[k]) by {
        let g = groups[k];
        if exists|h: DuplicateGroup| #[trigger] group_covers(h, g) && formed_by_interval(corpus, sa, lcp, options, h) {
            let h = choose|h: DuplicateGroup| #[trigger] group_covers(h, g) && formed_by_interval(corpus, sa, lcp, options, h);
            lemma_formed_represented(corpus, sa, lcp, options, groups, h);
            let r = choose|r: int| 0 <= r < groups.len() && (same_group(h, #[trigger] groups[r]) || group_covers(groups[r], h));
            if group_covers(groups[r], h) {
                lemma_covers_trans(groups[r], h, g);
            } else {
                assert(group_covers(groups[r], g));
            }
            assert(!group_covers(groups[r], groups[k]));
        }
    }
    assert forall|h: DuplicateGroup| #[trigger] maximal_formed(corpus, sa, lcp, options, h) implies one_of(groups, h) by {
        lemma_formed_represented(corpus, sa, lcp, options, groups, h);
        let r = choose|r: int| 0 <= r < groups.len() && (same_group(h, #[trigger] groups[r]) || group_covers(groups[r], h));
        if group_covers(groups[r], h) {
            assert(formed_by_interval(corpus, sa, lcp, options, groups[r]));
        }
    }
}

/// Some occurrence of `g` lies in another file than its first.
pub open spec fn spans_several_files(g: DuplicateGroup) -> bool {
    exists|i: int| 0 <= i < g.occurrences@.len() && (#[trigger] g.occurrences@[i]).file != g.occurrences@[0].file
}

/// Detection options with `min_lines` and the given same-file setting.
pub open spec fn with_same_file(min_lines: u32, same_file: bool) -> DetectionOptions {
    DetectionOptions { min_lines, same_file }
}

proof fn lemma_formed_cross_file(corpus: Corpus, sa: Seq<u32>, lcp: Seq<u32>, m: u32, g: DuplicateGroup)
    ensures
        formed_by_interval(corpus, sa, lcp, with_same_file(m, false), g) <==> formed_by_interval(
            corpus,
            sa,
            lcp,
            with_same_file(m, true),
            g,
        ) && spans_several_files(g),
{
    let (no, yes) = (with_same_file(m, false), with_same_file(m, true));
    if formed_by_interval(corpus, sa, lcp, no, g) {
        let (iv, kept) = choose|iv: LcpInterval, kept: Seq<CandidateOccurrence>|
            #![trigger lcp_interval(lcp, iv), overlap_free_cover(interval_candidate_list(corpus, sa, iv), kept)]
            lcp_interval(lcp, iv) && iv.length >= no.min_lines && interval_candidates_valid(corpus, sa, iv)
                && overlap_free_cover(interval_candidate_list(corpus, sa, iv), kept) && forms_group(corpus, kept, iv.length, no)
                && group_from(corpus, kept, iv.length, g);
        assert(forms_group(corpus, kept, iv.length, yes));
        assert(formed_by_interval(corpus, sa, lcp, yes, g));
        let i = choose|i: int| 0 <= i < kept.len() && (#[trigger] kept[i]).occurrence.file != kept[0].occurrence.file;
        assert(g.occurrences@[i] == kept[i].occurrence && g.occurrences@[0] == kept[0].occurrence);
    }
    if formed_by_interval(corpus, sa, lcp, yes, g) && spans_several_files(g) {
        let (iv, kept) = choose|iv: LcpInterval, kept: Seq<CandidateOccurrence>|
            #![trigger lcp_interval(lcp, iv), overlap_free_cover(interval_candidate_list(corpus, sa, iv), kept)]
            lcp_interval(lcp, iv) && iv.length >= yes.min_lines && interval_candidates_valid(corpus, sa, iv)
                && overlap_free_cover(interval_candidate_list(corpus, sa, iv), kept) && forms_group(corpus, kept, iv.length, yes)
                && group_from(corpus, kept, iv.length, g);
        let i = choose|i: int| 0 <= i < g.occurrences@.len() && (#[trigger] g.occurrences@[i]).file != g.occurrences@[0].file;
        assert(g.occurrences@[i] == kept[i].occurrence && g.occurrences@[0] == kept[0].occurrence);
        assert(spans_files(kept));
        assert(forms_group(corpus, kept, iv.length, no));
        assert(formed_by_interval(corpus, sa, lcp, no, g));
    }
}

/// A group covering one that spans several files spans several files.
proof fn lemma_cover_spans(h: DuplicateGroup, g: DuplicateGroup)
    requires
        group_covers(h, g),
        spans_several_files(g),
    ensures
        spans_several_files(h),
{
    let i = choose|i: int| 0 <= i < g.occurrences@.len() && (#[trigger] g.occurrences@[i]).file != g.occurrences@[0].file;
    assert(g.occurrences@.len() > 0);
    assert(covered_by(h.occurrences@, g.occurrences@[0]));
    assert(covered_by(h.occurrences@, g.occurrences@[i]));
    let a = choose|j: int| 0 <= j < h.occurrences@.len() && occurrence_covers(#[trigger] h.occurrences@[j], g.occurrences@[0]);
    let b = choose|j: int| 0 <= j < h.occurrences@.len() && occurrence_covers(#[trigger] h.occurrences@[j], g.occurrences@[i]);
    assert(h.occurrences@[a].file != h.occurrences@[b].file);
}

/// Leaving out same-file duplicates keeps exactly the maximal groups that
/// span several files: a group is maximal among the groups formed without
/// same-file duplicates exactly when it is maximal among those formed with
/// them and spans several files.
pub proof fn law_cross_file_groups(corpus: Corpus, sa: Seq<u32>, lcp: Seq<u32>, m: u32, g: DuplicateGroup)
    ensures
        maximal_formed(corpus, sa, lcp, with_same_file(m, false), g) <==> maximal_formed(
            corpus,
            sa,
            lcp,
            with_same_file(m, true),
            g,
        ) && spans_several_files(g),
{
    let (no, yes) = (with_same_file(m, false), with_same_file(m, true));
    lemma_formed_cross_file(corpus, sa, lcp, m, g);
    if maximal_formed(corpus, sa, lcp, no, g) {
        if exists|h: DuplicateGroup| #[trigger] group_covers(h, g) && formed_by_interval(corpus, sa, lcp, yes, h) {
            let h = choose|h: DuplicateGroup| #[trigger] group_covers(h, g) && formed_by_interval(corpus, sa, lcp, yes, h);
            lemma_cover_spans(h, g);
            lemma_formed_cross_file(corpus, sa, lcp, m, h);
            assert(formed_by_interval(corpus, sa, lcp, no, h));
        }
    }
    if maximal_formed(corpus, sa, lcp, yes, g) && spans_several_files(g) {
        if exists|h: DuplicateGroup| #[trigger] group_covers(h, g) && formed_by_interval(corpus, sa, lcp, no, h) {
            let h = choose|h: DuplicateGroup| #[trigger] group_covers(h, g) && formed_by_interval(corpus, sa, lcp, no, h);
            lemma_formed_cross_file(corpus, sa, lcp, m, h);
            assert(formed_by_interval(corpus, sa, lcp, yes, h));
        }
    }
}

/// `groups` are, as a set, exactly the maximal groups formed over the suffix
/// array of the corpus.
pub open spec fn maximal_result(corpus: Corpus, options: DetectionOptions, groups: Seq<DuplicateGroup>) -> bool {
    exists|sa: Seq<u32>, lcp: Seq<u32>|
        #![trigger is_suffix_array(corpus.tokens@, sa), lcp_array_of(corpus.tokens@, sa, lcp)]
        is_suffix_array(corpus.tokens@, sa) && lcp_array_of(corpus.tokens@, sa, lcp) && (forall|k: int|
            0 <= k < groups.len() ==> maximal_formed(corpus, sa, lcp, options, #[trigger] groups[k])) && (forall|
            h: DuplicateGroup,
        | #[trigger] maximal_formed(corpus, sa, lcp, options, h) ==> one_of(groups, h))
}

proof fn lemma_maximal_same_group(
    corpus: Corpus,
    sa: Seq<u32>,
    lcp: Seq<u32>,
    options: DetectionOptions,
    a: DuplicateGroup,
    b: DuplicateGroup,
)
    requires
        same_group(a, b),
    ensures
        maximal_formed(corpus, sa, lcp, options, a) == maximal_formed(corpus, sa, lcp, options, b),
        spans_several_files(a) == spans_several_files(b),
{
    if formed_by_interval(corpus, sa, lcp, options, b) {
        let (iv, kept) = choose|iv: LcpInterval, kept: Seq<CandidateOccurrence>|
            #![trigger lcp_interval(lcp, iv), overlap_free_cover(interval_candidate_list(corpus, sa, iv), kept)]
            lcp_interval(lcp, iv) && iv.length >= options.min_lines && interval_candidates_valid(corpus, sa, iv)
                && overlap_free_cover(interval_candidate_list(corpus, sa, iv), kept) && forms_group(corpus, kept, iv.length, options)
                && group_from(corpus, kept, iv.length, b);
        assert(group_from(corpus, kept, iv.length, a));
        assert(formed_by_interval(corpus, sa, lcp, options, a));
    }
    if formed_by_interval(corpus, sa, lcp, options, a) {
        let (iv, kept) = choose|iv: LcpInterval, kept: Seq<CandidateOccurrence>|
            #![trigger lcp_interval(lcp, iv), overlap_free_cover(interval_candidate_list(corpus, sa, iv), kept)]
            lcp_interval(lcp, iv) && iv.length >= options.min_lines && interval_candidates_valid(corpus, sa, iv)
                && overlap_free_cover(interval_candidate_list(corpus, sa, iv), kept) && forms_group(corpus, kept, iv.length, options)
                && group_from(corpus, kept, iv.length, a);
        assert(group_from(corpus, kept, iv.length, b));
        assert(formed_by_interval(corpus, sa, lcp, options, b));
    }
    if exists|h: DuplicateGroup| #[trigger] group_covers(h, a) && formed_by_interval(corpus, sa, lcp, options, h) {
        let h = choose|h: DuplicateGroup| #[trigger] group_covers(h, a) && formed_by_interval(corpus, sa, lcp, options, h);
        assert(group_covers(h, b));
    }
    if exists|h: DuplicateGroup| #[trigger] group_covers(h, b) && formed_by_interval(corpus, sa, lcp, options, h) {
        let h = choose|h: DuplicateGroup| #[trigger] group_covers(h, b) && formed_by_interval(corpus, sa, lcp, options, h);
        assert(group_covers(h, a));
    }
    if spans_several_files(a) {
        let i = choose|i: int| 0 <= i < a.occurrences@.len() && (#[trigger] a.occurrences@[i]).file != a.occurrences@[0].file;
        assert(b.occurrences@[i] == a.occurrences@[i]);
    }
    if spans_several_files(b) {
        let i = choose|i: int| 0 <= i < b.occurrences@.len() && (#[trigger] b.occurrences@[i]).file != b.occurrences@[0].file;
        assert(a.occurrences@[i] == b.occurrences@[i]);
    }
}

proof fn lemma_maximal_result_member(
    corpus: Corpus,
    sa: Seq<u32>,
    lcp: Seq<u32>,
    options: DetectionOptions,
    groups: Seq<DuplicateGroup>,
    g: DuplicateGroup,
)
    requires
        forall|k: int| 0 <= k < groups.len() ==> maximal_formed(corpus, sa, lcp, options, #[trigger] groups[k]),
        forall|h: DuplicateGroup| #[trigger] maximal_formed(corpus, sa, lcp, options, h) ==> one_of(groups, h),
    ensures
        one_of(groups, g) <==> maximal_formed(corpus, sa, lcp, options, g),
{
    if one_of(groups, g) {
        let k = choose|k: int| 0 <= k < groups.len() && same_group(g, #[trigger] groups[k]);
        lemma_maximal_same_group(corpus, sa, lcp, options, g, groups[k]);
    }
}

/// Detecting without same-file duplicates gives exactly the groups that
/// detecting with them gives and that span several files.
pub proof fn law_same_file_off_keeps_cross_file_groups(
    corpus: Corpus,
    min_lines: u32,
    without: Seq<DuplicateGroup>,
    with: Seq<DuplicateGroup>,
    g: DuplicateGroup,
)
    requires
        maximal_result(corpus, with_same_file(min_lines, false), without),
        maximal_result(corpus, with_same_file(min_lines, true), with),
    ensures
        one_of(without, g) <==> one_of(with, g) && spans_several_files(g),
{
    let (no, yes) = (with_same_file(min_lines, false), with_same_file(min_lines, true));
    let (sa1, lcp1) = choose|sa: Seq<u32>, lcp: Seq<u32>|
        #![trigger is_suffix_array(corpus.tokens@, sa), lcp_array_of(corpus.tokens@, sa, lcp)]
        is_suffix_array(corpus.tokens@, sa) && lcp_array_of(corpus.tokens@, sa, lcp) && (forall|k: int|
            0 <= k < without.len() ==> maximal_formed(corpus, sa, lcp, no, #[trigger] without[k])) && (forall|
            h: DuplicateGroup,
        | #[trigger] maximal_formed(corpus, sa, lcp, no, h) ==> one_of(without, h));
    let (sa2, lcp2) = choose|sa: Seq<u32>, lcp: Seq<u32>|
        #![trigger is_suffix_array(corpus.tokens@, sa), lcp_array_of(corpus.tokens@, sa, lcp)]
        is_suffix_array(corpus.tokens@, sa) && lcp_array_of(corpus.tokens@, sa, lcp) && (forall|k: int|
            0 <= k < with.len() ==> maximal_formed(corpus, sa, lcp, yes, #[trigger] with[k])) && (forall|
            h: DuplicateGroup,
        | #[trigger] maximal_formed(corpus, sa, lcp, yes, h) ==> one_of(with, h));
    lemma_suffix_array_unique(corpus.tokens@, sa1, sa2);
    assert(lcp1 =~= lcp2) by {
        assert forall|i: int| 0 <= i < lcp1.len() implies lcp1[i] == lcp2[i] by {
            if i > 0 {
                assert(lcp1[i] == lcp_len(corpus.tokens@, sa1[i - 1] as int, sa1[i] as int));
                assert(lcp2[i] == lcp_len(corpus.tokens@, sa2[i - 1] as int, sa2[i] as int));
            }
        }
    }
    lemma_maximal_result_member(corpus, sa1, lcp1, no, without, g);
    lemma_maximal_result_member(corpus, sa1, lcp1, yes, with, g);
    law_cross_file_groups(corpus, sa1, lcp1, min_lines, g);
}

fn extract_duplicates(
    corpus: &Corpus,
    suffixes: &Vec<CorpusPos>,
    lcp: &Vec<u32>,
    options: DetectionOptions,
) -> (result: Result<Vec<DuplicateGroup>, DetectError>)
    requires
        suffixes@.len() == lcp@.len(),
        forall|i: int| 0 <= i < suffixes@.len() ==> #[trigger] suffixes@[i] < corpus.tokens@.len(),
    ensures
        result matches Ok(groups) ==> canonical_groups(groups@) && forall|k: int|
            0 <= k < groups@.len() ==> qualified_group(*corpus, options, #[trigger] groups@[k]),
        result matches Err(e) ==> e is InvalidOccurrence,
        result matches Ok(groups) ==> forall|k: int|
            0 <= k < groups@.len() ==> formed_by_interval(*corpus, suffixes@, lcp@, options, #[trigger] groups@[k]),
        result matches Ok(groups) ==> forall|interval: LcpInterval|
            #[trigger] lcp_interval(lcp@, interval) && interval.length >= options.min_lines ==> interval_found(
                *corpus,
                suffixes@,
                interval,
                options,
                groups@,
            ),
        result is Err ==> exists|interval: LcpInterval|
            #[trigger] lcp_interval(lcp@, interval) && interval.length >= options.min_lines && interval_fails(
                *corpus,
                suffixes@,
                interval,
                options,
            ),
        corpus_valid(*corpus) && corpus.tokens@.len() <= u32::MAX && is_permutation(corpus.tokens@, suffixes@)
            && lcp_array_of(corpus.tokens@, suffixes@, lcp@) ==> (result matches Ok(groups) && forall|k: int|
            0 <= k < groups@.len() ==> sound_group(*corpus, #[trigger] groups@[k])),
{
    let ghost ready = corpus_valid(*corpus) && corpus.tokens@.len() <= u32::MAX && is_permutation(
        corpus.tokens@,
        suffixes@,
    ) && lcp_array_of(corpus.tokens@, suffixes@, lcp@);
    let intervals = lcp_intervals(lcp, options.min_lines);
    let mut groups: Vec<DuplicateGroup> = Vec::new();
    let mut k: usize = 0;
    while k < intervals.len()
        invariant
            k <= intervals@.len(),
            suffixes@.len() == lcp@.len(),
            forall|i: int| 0 <= i < suffixes@.len() ==> #[trigger] suffixes@[i] < corpus.tokens@.len(),
            forall|t: int|
                0 <= t < intervals@.len() ==> lcp_interval(lcp@, #[trigger] intervals@[t])
                    && intervals@[t].length >= options.min_lines,
            forall|t: int|
                0 <= t < groups@.len() ==> qualified_group(*corpus, options, #[trigger] groups@[t]),
            forall|t: int|
                0 <= t < k ==> interval_found(*corpus, suffixes@, #[trigger] intervals@[t], options, groups@),
            ready == (corpus_valid(*corpus) && corpus.tokens@.len() <= u32::MAX && is_permutation(
                corpus.tokens@,
                suffixes@,
            ) && lcp_array_of(corpus.tokens@, suffixes@, lcp@)),
            ready ==> forall|t: int| 0 <= t < groups@.len() ==> sound_group(*corpus, #[trigger] groups@[t]),
            forall|t: int|
                0 <= t < groups@.len() ==> formed_by_interval(*corpus, suffixes@, lcp@, options, #[trigger] groups@[t]),
        decreases intervals@.len() - k,
    {
        let interval = intervals[k];
        proof {
            assert(lcp_interval(lcp@, intervals@[k as int]));
        }
        let ghost before = groups@;
        let outcome = interval_group(corpus, suffixes, interval, options);
        match outcome {
            Ok(Some(group)) => {
                proof {
                    let kept = choose|kept: Seq<CandidateOccurrence>|
                        overlap_free_cover(interval_candidate_list(*corpus, suffixes@, interval), kept)
                            && group_outcome(*corpus, kept, interval.length, options, outcome);
                    if ready {
                        lemma_kept_sound(*corpus, suffixes@, lcp@, interval, kept, group);
                    }
                    assert(lcp_interval(lcp@, interval));
                    assert(formed_by_interval(*corpus, suffixes@, lcp@, options, group));
                }
                let ghost prior = groups@;
                groups.push(group);
                proof {
                    assert forall|t: int| 0 <= t < groups@.len() implies formed_by_interval(
                        *corpus,
                        suffixes@,
                        lcp@,
                        options,
                        #[trigger] groups@[t],
                    ) by {
                        if t < prior.len() {
                            assert(groups@[t] == prior[t]);
                        }
                    }
                    if ready {
                        assert forall|t: int| 0 <= t < groups@.len() implies sound_group(*corpus, #[trigger] groups@[t]) by {
                            if t < prior.len() {
                                assert(groups@[t] == prior[t]);
                            }
                        }
                    }
                }
            },
            Ok(None) => {},
            Err(error) => {
                proof {
                    assert(interval_fails(*corpus, suffixes@, interval, options));
                    if ready {
                        lemma_interval_ready(*corpus, suffixes@, lcp@, interval, Seq::empty());
                        let kept = choose|kept: Seq<CandidateOccurrence>|
                            overlap_free_cover(interval_candidate_list(*corpus, suffixes@, interval), kept)
                                && group_outcome(*corpus, kept, interval.length, options, outcome);
                        lemma_interval_ready(*corpus, suffixes@, lcp@, interval, kept);
                        assert(false);
                    }
                }
                return Err(error);
            },
        }
        proof {
            assert forall|i: int| 0 <= i < before.len() implies #[trigger] groups@[i] == before[i] by {}
            assert forall|t: int| 0 <= t < k implies interval_found(
                *corpus,
                suffixes@,
                #[trigger] intervals@[t],
                options,
                groups@,
            ) by {
                lemma_found_grows(*corpus, suffixes@, intervals@[t], options, before, groups@);
            }
            lemma_found_now(*corpus, suffixes@, interval, options, outcome, groups@);
            assert(interval_found(*corpus, suffixes@, interval, options, groups@));
        }
        k = k + 1;
    }
    proof {
        assert forall|t: int| 0 <= t < groups@.len() implies (#[trigger] groups@[t]).occurrences@.len() > 0 by {
            assert(qualified_group(*corpus, options, groups@[t]));
        }
    }
    let ghost found = groups@;
    let result = canonicalize_groups(groups);
    proof {
        assert forall|t: int| 0 <= t < result@.len() implies qualified_group(*corpus, options, #[trigger] result@[t]) by {
            assert(one_of(found, result@[t]));
            let i = choose|i: int| 0 <= i < found.len() && same_group(result@[t], #[trigger] found[i]);
            lemma_same_group_qualified(*corpus, options, result@[t], found[i]);
        }
        assert forall|interval: LcpInterval|
            #[trigger] lcp_interval(lcp@, interval) && interval.length >= options.min_lines implies interval_found(
            *corpus,
            suffixes@,
            interval,
            options,
            result@,
        ) by {
            assert(intervals@.contains(interval));
            let t = choose|t: int| 0 <= t < intervals@.len() && intervals@[t] == interval;
            assert(interval_found(*corpus, suffixes@, intervals@[t], options, found));
            lemma_found_represented(*corpus, suffixes@, interval, options, found, result@);
        }
        assert forall|t: int| 0 <= t < result@.len() implies formed_by_interval(
            *corpus,
            suffixes@,
            lcp@,
            options,
            #[trigger] result@[t],
        ) by {
            assert(one_of(found, result@[t]));
            let i = choose|i: int| 0 <= i < found.len() && same_group(result@[t], #[trigger] found[i]);
            assert(formed_by_interval(*corpus, suffixes@, lcp@, options, found[i]));
            let (iv, kept) = choose|iv: LcpInterval, kept: Seq<CandidateOccurrence>|
                #![trigger lcp_interval(lcp@, iv), overlap_free_cover(interval_candidate_list(*corpus, suffixes@, iv), kept)]
                lcp_interval(lcp@, iv) && iv.length >= options.min_lines && interval_candidates_valid(*corpus, suffixes@, iv)
                    && overlap_free_cover(interval_candidate_list(*corpus, suffixes@, iv), kept) && forms_group(
                    *corpus,
                    kept,
                    iv.length,
                    options,
                ) && group_from(*corpus, kept, iv.length, found[i]);
            assert(group_from(*corpus, kept, iv.length, result@[t]));
        }
        if ready {
            assert forall|t: int| 0 <= t < result@.len() implies sound_group(*corpus, #[trigger] result@[t]) by {
                assert(one_of(found, result@[t]));
                let i = choose|i: int| 0 <= i < found.len() && same_group(result@[t], #[trigger] found[i]);
                assert(sound_group(*corpus, found[i]));
                assert(result@[t].occurrences@ == found[i].occurrences@);
            }
        }
    }
    Ok(result)
}

/// `lcp` is the LCP array of `tokens` over the suffix order `sa`: zero
/// first, then the common prefix length of each adjacent pair.
pub open spec fn lcp_array_of(tokens: Seq<u32>, sa: Seq<u32>, lcp: Seq<u32>) -> bool {
    &&& lcp.len() == tokens.len()
    &&& lcp.len() > 0 ==> lcp[0] == 0
    &&& forall|i: int| 0 < i < lcp.len() ==> #[trigger] lcp[i] == lcp_len(tokens, sa[i - 1] as int, sa[i] as int)
}

/// Detects duplicate normalized source blocks in `corpus`.
///
/// Detection is exact over the normalized line-token corpus: it builds the
/// suffix and LCP arrays, extracts the repeated LCP intervals, maps them
/// back to normalized source lines, and applies the qualification and
/// grouping rules.
pub fn detect_duplicates(corpus: &Corpus, options: DetectionOptions) -> (result: Result<
    Vec<DuplicateGroup>,
    DetectError,
>)
    ensures
        (result matches Err(e) && e is InvalidMinLines) <==> options.min_lines == 0,
        options.min_lines > 0 ==> ((result matches Err(e) && e == DetectError::Suffix(
            SuffixError::TooLarge,
        )) <==> corpus.tokens@.len() > u32::MAX),
        result matches Ok(groups) ==> canonical_groups(groups@) && forall|k: int|
            0 <= k < groups@.len() ==> qualified_group(*corpus, options, #[trigger] groups@[k]),
        result matches Err(e) ==> e is InvalidMinLines || e == DetectError::Suffix(
            SuffixError::TooLarge,
        ) || e is InvalidOccurrence,
        result matches Ok(groups) ==> exists|sa: Seq<u32>, lcp: Seq<u32>|
            #![trigger is_suffix_array(corpus.tokens@, sa), lcp_array_of(corpus.tokens@, sa, lcp)]
            is_suffix_array(corpus.tokens@, sa) && lcp_array_of(corpus.tokens@, sa, lcp) && (forall|
                interval: LcpInterval,
            |
                #[trigger] lcp_interval(lcp, interval) && interval.length >= options.min_lines ==> interval_found(
                    *corpus,
                    sa,
                    interval,
                    options,
                    groups@,
                )) && forall|k: int|
                0 <= k < groups@.len() ==> formed_by_interval(*corpus, sa, lcp, options, #[trigger] groups@[k]),
        result matches Ok(groups) ==> corpus_valid(*corpus) ==> maximal_result(*corpus, options, groups@),
        corpus_valid(*corpus) && options.min_lines >= 1 && corpus.tokens@.len() <= u32::MAX ==> (result matches Ok(
            groups,
        ) && forall|k: int| 0 <= k < groups@.len() ==> sound_group(*corpus, #[trigger] groups@[k])),
        result matches Err(e) && e is InvalidOccurrence ==> exists|sa: Seq<u32>, lcp: Seq<u32>, interval: LcpInterval|
            #![trigger is_suffix_array(corpus.tokens@, sa), lcp_array_of(corpus.tokens@, sa, lcp), lcp_interval(lcp, interval)]
            is_suffix_array(corpus.tokens@, sa) && lcp_array_of(corpus.tokens@, sa, lcp) && lcp_interval(lcp, interval)
                && interval.length >= options.min_lines && interval_fails(*corpus, sa, interval, options),
{
    if options.min_lines == 0 {
        return Err(DetectError::InvalidMinLines);
    }
    let suffixes = match build_suffix_array(corpus.tokens.as_slice()) {
        Ok(suffixes) => suffixes,
        Err(error) => {
            return Err(DetectError::Suffix(error));
        },
    };
    let lcp = match build_lcp_array(corpus.tokens.as_slice(), suffixes.as_slice()) {
        Ok(lcp) => lcp,
        Err(error) => {
            return Err(DetectError::Suffix(error));
        },
    };
    proof {
        assert(is_sorted_suffixes(corpus.tokens@, suffixes@));
    }
    let result = extract_duplicates(corpus, &suffixes, &lcp, options);
    proof {
        assert(lcp_array_of(corpus.tokens@, suffixes@, lcp@));
        if corpus_valid(*corpus) && result is Ok {
            lemma_result_maximal(*corpus, suffixes@, lcp@, options, result->Ok_0@);
        }
        if result is Err {
            let interval = choose|interval: LcpInterval|
                #[trigger] lcp_interval(lcp@, interval) && interval.length >= options.min_lines && interval_fails(
                    *corpus,
                    suffixes@,
                    interval,
                    options,
                );
            assert(lcp_interval(lcp@, interval));
        }
    }
    result
}

} // verus!
