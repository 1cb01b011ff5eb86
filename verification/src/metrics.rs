use vstd::prelude::*;

use crate::chars::chars_of;
use crate::corpus::{total_lines, Corpus};
use crate::model::{DuplicateGroup, NormalizedLine, Occurrence, PreparedFile};
use crate::order::{lemma_pair_key, lemma_sorted_membership, pair_key, sort_by_key, sorted_by_key};

verus! {

/// Repository-level duplication counts.
#[derive(Debug, Clone, Copy, PartialEq, Eq, Structural)]
pub struct Metrics {
    pub files: u64,
    pub source_lines: u64,
    /// Normalized lines that carry substance.
    pub analyzed_lines: u64,
    pub duplicate_groups: u64,
    /// Substantive normalized lines repeated beyond a group's canonical copy,
    /// each counted once.
    pub duplicate_lines: u64,
}

/// A duplicate group that does not fit the corpus.
#[derive(Debug, Clone, Copy, PartialEq, Eq, Structural)]
pub enum MetricsError {
    EmptyGroup { group: usize },
    UnknownFile { group: usize, file: u32 },
    InvalidOccurrence { group: usize, file: u32, start: u32, end: u64 },
    LengthMismatch { group: usize, group_length: u32, occurrence_length: u32 },
    DuplicateOccurrence { group: usize, file: u32, start: u32 },
}

// ----------------------------------------------------------------------
// Counting lines.
/// Number of `\n` in `s`.
pub open spec fn newline_chars(s: Seq<char>) -> nat
    decreases s.len(),
{
    if s.len() == 0 {
        0
    } else {
        newline_chars(s.drop_last()) + if s.last() == '\n' {
            1nat
        } else {
            0nat
        }
    }
}

/// Number of lines `str::lines` yields for `s`: a final `\n` ends the last
/// line rather than starting another.
pub open spec fn text_line_count(s: Seq<char>) -> nat {
    if s.len() == 0 {
        0
    } else {
        newline_chars(s.drop_last()) + 1
    }
}

/// Physical source lines of all files.
pub open spec fn source_line_total(files: Seq<PreparedFile>) -> nat
    decreases files.len(),
{
    if files.len() == 0 {
        0
    } else {
        source_line_total(files.drop_last()) + text_line_count(files.last().source@)
    }
}

/// Substantive lines among `lines`.
pub open spec fn effective_in(lines: Seq<NormalizedLine>) -> nat
    decreases lines.len(),
{
    if lines.len() == 0 {
        0
    } else {
        effective_in(lines.drop_last()) + if lines.last().effective {
            1nat
        } else {
            0nat
        }
    }
}

/// Substantive normalized lines of all files.
pub open spec fn effective_total(files: Seq<PreparedFile>) -> nat
    decreases files.len(),
{
    if files.len() == 0 {
        0
    } else {
        effective_total(files.drop_last()) + effective_in(files.last().lines@)
    }
}

// ----------------------------------------------------------------------
// Validation.
/// Occurrences ordered by file, then start, then length.
pub open spec fn occurrence_key(o: Occurrence) -> int {
    pair_key(pair_key(o.file as int, o.normalized_start as int), o.normalized_len as int)
}

/// `o` occurs at two places of `occurrences`.
pub open spec fn repeated(occurrences: Seq<Occurrence>, o: Occurrence) -> bool {
    exists|a: int, b: int| 0 <= a < b < occurrences.len() && occurrences[a] == o && occurrences[b] == o
}

/// The repeated occurrence that sorts first.
pub open spec fn first_repeated(occurrences: Seq<Occurrence>) -> Occurrence {
    choose|o: Occurrence|
        repeated(occurrences, o) && forall|p: Occurrence| #[trigger] repeated(occurrences, p) ==> occurrence_key(o)
            <= occurrence_key(p)
}

/// What is wrong with occurrence `o` of group `g`, whose length is
/// `length`, if anything: a different length, an unknown file, or a range
/// that is empty or leaves its file.
pub open spec fn occurrence_error(files: Seq<PreparedFile>, o: Occurrence, length: u32, g: int) -> Option<MetricsError> {
    if o.normalized_len != length {
        Some(
            MetricsError::LengthMismatch {
                group: g as usize,
                group_length: length,
                occurrence_length: o.normalized_len,
            },
        )
    } else if o.file >= files.len() {
        Some(MetricsError::UnknownFile { group: g as usize, file: o.file })
    } else if o.normalized_len == 0 || o.normalized_start + o.normalized_len > files[o.file as int].lines@.len() {
        Some(
            MetricsError::InvalidOccurrence {
                group: g as usize,
                file: o.file,
                start: o.normalized_start,
                end: (o.normalized_start + o.normalized_len) as u64,
            },
        )
    } else {
        None
    }
}

/// The first error among the first `n` occurrences.
pub open spec fn occurrences_error(
    files: Seq<PreparedFile>,
    occurrences: Seq<Occurrence>,
    length: u32,
    g: int,
    n: int,
) -> Option<MetricsError>
    decreases n,
{
    if n <= 0 {
        None
    } else {
        match occurrences_error(files, occurrences, length, g, n - 1) {
            Some(e) => Some(e),
            None => occurrence_error(files, occurrences[n - 1], length, g),
        }
    }
}

/// What is wrong with group `g`, if anything: no occurrences, a repeated
/// occurrence, or the first faulty occurrence.
pub open spec fn group_error(files: Seq<PreparedFile>, group: DuplicateGroup, g: int) -> Option<MetricsError> {
    let occurrences = group.occurrences@;
    if occurrences.len() == 0 {
        Some(MetricsError::EmptyGroup { group: g as usize })
    } else if exists|o: Occurrence| repeated(occurrences, o) {
        let o = first_repeated(occurrences);
        Some(MetricsError::DuplicateOccurrence { group: g as usize, file: o.file, start: o.normalized_start })
    } else {
        occurrences_error(files, occurrences, group.normalized_len, g, occurrences.len() as int)
    }
}

/// The error of the first faulty group among the first `n`.
pub open spec fn groups_error(files: Seq<PreparedFile>, groups: Seq<DuplicateGroup>, n: int) -> Option<MetricsError>
    decreases n,
{
    if n <= 0 {
        None
    } else {
        match groups_error(files, groups, n - 1) {
            Some(e) => Some(e),
            None => group_error(files, groups[n - 1], n - 1),
        }
    }
}

// ----------------------------------------------------------------------
// Redundant lines.
/// The canonical copy of a group: its first occurrence in sort order.
pub open spec fn canonical(occurrences: Seq<Occurrence>) -> Occurrence {
    choose|o: Occurrence|
        occurrences.contains(o) && forall|k: int| 0 <= k < occurrences.len() ==> occurrence_key(o) <= occurrence_key(
            #[trigger] occurrences[k],
        )
}

/// Occurrence `k` of group `g` makes line `l` of file `f` redundant: it is
/// not the canonical copy, it covers the line, and the line carries
/// substance.
pub open spec fn marks_line(files: Seq<PreparedFile>, groups: Seq<DuplicateGroup>, g: int, k: int, f: int, l: int) -> bool {
    let o = groups[g].occurrences@[k];
    &&& o != canonical(groups[g].occurrences@)
    &&& o.file == f
    &&& o.normalized_start <= l < o.normalized_start + o.normalized_len
    &&& files[f].lines@[l].effective
}

/// Some occurrence before occurrence `k` of group `g` makes line `l` of
/// file `f` redundant.
pub open spec fn marked_before(
    files: Seq<PreparedFile>,
    groups: Seq<DuplicateGroup>,
    f: int,
    l: int,
    g: int,
    k: int,
) -> bool {
    exists|a: int, b: int|
        0 <= a < groups.len() && 0 <= b < groups[a].occurrences@.len() && (a < g || (a == g && b < k))
            && #[trigger] marks_line(files, groups, a, b, f, l)
}

/// Line `l` of file `f` is redundant.
pub open spec fn line_redundant(files: Seq<PreparedFile>, groups: Seq<DuplicateGroup>, f: int, l: int) -> bool {
    marked_before(files, groups, f, l, groups.len() as int, 0)
}

/// Redundant lines among the first `n` lines of file `f`.
pub open spec fn redundant_in_file(files: Seq<PreparedFile>, groups: Seq<DuplicateGroup>, f: int, n: int) -> nat
    decreases n,
{
    if n <= 0 {
        0
    } else {
        redundant_in_file(files, groups, f, n - 1) + if line_redundant(files, groups, f, n - 1) {
            1nat
        } else {
            0nat
        }
    }
}

/// Redundant lines of the first `n` files.
pub open spec fn redundant_total(files: Seq<PreparedFile>, groups: Seq<DuplicateGroup>, n: int) -> nat
    decreases n,
{
    if n <= 0 {
        0
    } else {
        redundant_total(files, groups, n - 1) + redundant_in_file(files, groups, n - 1, files[n - 1].lines@.len() as int)
    }
}

// ----------------------------------------------------------------------
// Executable parts.
/// Number of lines `str::lines` yields for `source`.
fn physical_line_count(source: &str) -> (count: u64)
    ensures
        count == text_line_count(source@),
{
    let chars = chars_of(source);
    let n = chars.len();
    if n == 0 {
        return 0;
    }
    let mut newlines: u64 = 0;
    let mut i: usize = 0;
    while i < n - 1
        invariant
            chars@ == source@,
            n == chars@.len() > 0,
            i <= n - 1,
            newlines == newline_chars(chars@.take(i as int)),
            newlines <= i,
        decreases n - 1 - i,
    {
        proof {
            assert(chars@.take(i + 1).drop_last() =~= chars@.take(i as int));
        }
        if chars[i] == '\n' {
            newlines = newlines + 1;
        }
        i = i + 1;
    }
    proof {
        assert(chars@.take(i as int) =~= chars@.drop_last());
    }
    newlines + 1
}

/// Occurrences with equal keys are equal, and keys order occurrences by
/// file, then start, then length.
pub proof fn lemma_occurrence_key(a: Occurrence, b: Occurrence)
    ensures
        occurrence_key(a) == occurrence_key(b) <==> a == b,
        occurrence_key(a) < occurrence_key(b) <==> (a.file < b.file || (a.file == b.file && (a.normalized_start
            < b.normalized_start || (a.normalized_start == b.normalized_start && a.normalized_len
            < b.normalized_len)))),
{
    lemma_pair_key(a.file as int, a.normalized_start as int, b.file as int, b.normalized_start as int);
    lemma_pair_key(
        pair_key(a.file as int, a.normalized_start as int),
        a.normalized_len as int,
        pair_key(b.file as int, b.normalized_start as int),
        b.normalized_len as int,
    );
}

/// The sort key of `o`.
fn occurrence_sort_key(o: Occurrence) -> (key: u128)
    ensures
        key as int == occurrence_key(o),
{
    let file = o.file as u128;
    let start = o.normalized_start as u128;
    let len = o.normalized_len as u128;
    assert(file * 4294967296 <= 4294967295 * 4294967296) by (nonlinear_arith)
        requires
            file <= 4294967295,
    ;
    let head = file * 4294967296 + start;
    assert(head * 4294967296 <= 18446744073709551615 * 4294967296) by (nonlinear_arith)
        requires
            head <= 18446744073709551615,
    ;
    head * 4294967296 + len
}

/// A value occurs twice in `s` exactly when the multiset of `s` counts it
/// at least twice.
pub proof fn lemma_repeated_count<T>(s: Seq<T>, x: T)
    ensures
        (exists|a: int, b: int| 0 <= a < b < s.len() && s[a] == x && s[b] == x) <==> s.to_multiset().count(x)
            >= 2,
    decreases s.len(),
{
    broadcast use vstd::seq_lib::group_to_multiset_ensures;

    if s.len() > 0 {
        let init = s.drop_last();
        let last = s.last();
        lemma_repeated_count(init, x);
        assert(s =~= init.push(last));
        assert(s.to_multiset() == init.to_multiset().insert(last));
        if exists|a: int, b: int| 0 <= a < b < s.len() && s[a] == x && s[b] == x {
            let (a, b) = choose|a: int, b: int| 0 <= a < b < s.len() && s[a] == x && s[b] == x;
            if b < s.len() - 1 {
                assert(init[a] == x && init[b] == x);
            } else {
                assert(init[a] == x);
                assert(init.contains(x));
            }
        }
        if s.to_multiset().count(x) >= 2 {
            if last == x {
                assert(init.to_multiset().count(x) >= 1);
                assert(init.contains(x));
                let a = choose|a: int| 0 <= a < init.len() && init[a] == x;
                assert(s[a] == x && s[s.len() - 1] == x);
            } else {
                let (a, b) = choose|a: int, b: int| 0 <= a < b < init.len() && init[a] == x && init[b] == x;
                assert(s[a] == x && s[b] == x);
            }
        }
    } else {
        assert(s.to_multiset().count(x) == 0);
    }
}

/// Sorting the keyed entries of `occs` keeps which occurrences repeat.
proof fn lemma_repeated_sorted(occs: Seq<Occurrence>, it: Seq<(u128, Occurrence)>, s: Seq<(u128, Occurrence)>)
    requires
        it.len() == occs.len(),
        forall|k: int| 0 <= k < it.len() ==> #[trigger] it[k] == (occurrence_key(occs[k]) as u128, occs[k]),
        s.to_multiset() == it.to_multiset(),
    ensures
        forall|o: Occurrence| repeated(occs, o) <==> #[trigger] repeated_entry(s, o),
{
    assert forall|o: Occurrence| repeated(occs, o) <==> #[trigger] repeated_entry(s, o) by {
        let e = (occurrence_key(o) as u128, o);
        lemma_repeated_count(it, e);
        lemma_repeated_count(s, e);
        if repeated(occs, o) {
            let (a, b) = choose|a: int, b: int| 0 <= a < b < occs.len() && occs[a] == o && occs[b] == o;
            assert(it[a] == e && it[b] == e);
        }
        if exists|a: int, b: int| 0 <= a < b < it.len() && it[a] == e && it[b] == e {
            let (a, b) = choose|a: int, b: int| 0 <= a < b < it.len() && it[a] == e && it[b] == e;
            assert(occs[a] == o && occs[b] == o);
        }
    }
}

/// In key-sorted entries, a repeated entry has an equal neighbour no
/// earlier than its first place.
proof fn lemma_repeated_adjacent(s: Seq<(u128, Occurrence)>, o: Occurrence)
    requires
        sorted_by_key(s),
        repeated_entry(s, o),
    ensures
        exists|a: int| 0 <= a && a + 1 < s.len() && (#[trigger] s[a]).0 == s[a + 1].0 && s[a].0 == occurrence_key(o),
{
    let (a, b) = choose|a: int, b: int|
        0 <= a < b < s.len() && s[a] == (occurrence_key(o) as u128, o) && s[b] == (occurrence_key(o) as u128, o);
    assert(s[a].0 <= s[a + 1].0 <= s[b].0);
}

/// The repeated occurrence that sorts first, if any.
fn first_duplicate(occurrences: &Vec<Occurrence>) -> (found: Option<Occurrence>)
    ensures
        found is None <==> !exists|o: Occurrence| repeated(occurrences@, o),
        found matches Some(o) ==> repeated(occurrences@, o) && o == first_repeated(occurrences@),
{
    let ghost occs = occurrences@;
    let mut items: Vec<(u128, Occurrence)> = Vec::new();
    let mut i: usize = 0;
    while i < occurrences.len()
        invariant
            occs == occurrences@,
            i <= occs.len(),
            items@.len() == i,
            forall|k: int| 0 <= k < i ==> #[trigger] items@[k] == (occurrence_key(occs[k]) as u128, occs[k]),
        decreases occs.len() - i,
    {
        let key = occurrence_sort_key(occurrences[i]);
        items.push((key, occurrences[i]));
        i = i + 1;
    }
    let sorted = sort_by_key(&items);
    let ghost s = sorted@;
    let ghost it = items@;
    proof {
        lemma_sorted_membership(it, s);
        assert forall|r: int| 0 <= r < s.len() implies (#[trigger] s[r]).0 as int == occurrence_key(s[r].1) by {
            assert(it.contains(s[r]));
            let k = choose|k: int| 0 <= k < it.len() && it[k] == s[r];
            assert(it[k] == (occurrence_key(occs[k]) as u128, occs[k]));
        }
        lemma_repeated_sorted(occs, it, s);
    }
    let mut i: usize = 0;
    while sorted.len() > 0 && i < sorted.len() - 1
        invariant
            occs == occurrences@,
            s == sorted@,
            sorted_by_key(s),
            forall|r: int| 0 <= r < s.len() ==> (#[trigger] s[r]).0 as int == occurrence_key(s[r].1),
            forall|o: Occurrence| repeated(occs, o) <==> #[trigger] repeated_entry(s, o),
            i <= s.len(),
            forall|r: int| 0 <= r < i && r + 1 < s.len() ==> #[trigger] s[r].0 != s[r + 1].0,
        decreases s.len() - i,
    {
        if sorted[i].0 == sorted[i + 1].0 {
            let o = sorted[i].1;
            proof {
                lemma_occurrence_key(s[i as int].1, s[i + 1].1);
                assert(s[i as int] == s[i + 1]);
                assert(s[i as int] == (occurrence_key(o) as u128, o));
                assert(repeated_entry(s, o));
                assert forall|p: Occurrence| #[trigger] repeated(occs, p) implies occurrence_key(o) <= occurrence_key(p) by {
                    assert(repeated_entry(s, p));
                    lemma_repeated_adjacent(s, p);
                    let a = choose|a: int| 0 <= a && a + 1 < s.len() && (#[trigger] s[a]).0 == s[a + 1].0 && s[a].0 == occurrence_key(p);
                    if a >= i {
                        assert(s[i as int].0 <= s[a].0);
                    }
                }
                let q = first_repeated(occs);
                assert(repeated(occs, o));
                assert(repeated(occs, q) && occurrence_key(q) <= occurrence_key(o));
                lemma_occurrence_key(o, q);
            }
            return Some(o);
        }
        i = i + 1;
    }
    proof {
        assert forall|o: Occurrence| !repeated(occs, o) by {
            if repeated(occs, o) {
                lemma_repeated_adjacent(s, o);
            }
        }
    }
    None
}

/// The entry of `o` occurs twice among `entries`.
pub open spec fn repeated_entry(entries: Seq<(u128, Occurrence)>, o: Occurrence) -> bool {
    exists|a: int, b: int|
        0 <= a < b < entries.len() && entries[a] == (occurrence_key(o) as u128, o) && entries[b] == (
            occurrence_key(o) as u128,
            o,
        )
}

/// Once some occurrence is faulty, the first error stays the same.
proof fn lemma_occurrences_error_extend(fs: Seq<PreparedFile>, occs: Seq<Occurrence>, length: u32, g: int, m: int, n: int)
    requires
        0 <= m <= n <= occs.len(),
        occurrences_error(fs, occs, length, g, m) is Some,
    ensures
        occurrences_error(fs, occs, length, g, n) == occurrences_error(fs, occs, length, g, m),
    decreases n - m,
{
    if m < n {
        lemma_occurrences_error_extend(fs, occs, length, g, m, n - 1);
    }
}

/// Once some group is faulty, the first error stays the same.
/// When no group is faulty, each one passes validation.
pub proof fn lemma_groups_valid(fs: Seq<PreparedFile>, groups: Seq<DuplicateGroup>, g: int, n: int)
    requires
        0 <= g < n <= groups.len(),
        groups_error(fs, groups, n) is None,
    ensures
        group_error(fs, groups[g], g) is None,
    decreases n - g,
{
    if g < n - 1 {
        lemma_groups_valid(fs, groups, g, n - 1);
    }
}

proof fn lemma_groups_error_extend(fs: Seq<PreparedFile>, groups: Seq<DuplicateGroup>, m: int, n: int)
    requires
        0 <= m <= n <= groups.len(),
        groups_error(fs, groups, m) is Some,
    ensures
        groups_error(fs, groups, n) == groups_error(fs, groups, m),
    decreases n - m,
{
    if m < n {
        lemma_groups_error_extend(fs, groups, m, n - 1);
    }
}

/// The fault of one occurrence of a group of length `length`, if any.
fn check_occurrence(files: &Vec<PreparedFile>, o: Occurrence, length: u32, g: usize) -> (result: Result<(), MetricsError>)
    ensures
        match occurrence_error(files@, o, length, g as int) {
            None => result is Ok,
            Some(e) => result == Err::<(), MetricsError>(e),
        },
{
    if o.normalized_len != length {
        return Err(
            MetricsError::LengthMismatch { group: g, group_length: length, occurrence_length: o.normalized_len },
        );
    }
    if o.file as usize >= files.len() {
        return Err(MetricsError::UnknownFile { group: g, file: o.file });
    }
    let end: u64 = o.normalized_start as u64 + o.normalized_len as u64;
    if o.normalized_len == 0 || end > files[o.file as usize].lines.len() as u64 {
        return Err(MetricsError::InvalidOccurrence { group: g, file: o.file, start: o.normalized_start, end });
    }
    Ok(())
}

/// Checks group `g`: it has occurrences, none repeated, each of the
/// group's length and inside a known file.
#[verifier::rlimit(40)]
fn validate_group(files: &Vec<PreparedFile>, group: &DuplicateGroup, g: usize) -> (result: Result<(), MetricsError>)
    ensures
        match group_error(files@, *group, g as int) {
            None => result is Ok,
            Some(e) => result == Err::<(), MetricsError>(e),
        },
{
    let occurrences = &group.occurrences;
    if occurrences.len() == 0 {
        return Err(MetricsError::EmptyGroup { group: g });
    }
    match first_duplicate(occurrences) {
        Some(o) => {
            proof {
                assert(exists|p: Occurrence| repeated(occurrences@, p));
                assert(group_error(files@, *group, g as int) == Some(
                    MetricsError::DuplicateOccurrence { group: g, file: o.file, start: o.normalized_start },
                ));
            }
            return Err(MetricsError::DuplicateOccurrence { group: g, file: o.file, start: o.normalized_start });
        },
        None => {},
    }
    let ghost n = occurrences@.len() as int;
    proof {
        assert(group_error(files@, *group, g as int) == occurrences_error(
            files@,
            occurrences@,
            group.normalized_len,
            g as int,
            n,
        ));
    }
    let mut k: usize = 0;
    while k < occurrences.len()
        invariant
            occurrences@ == group.occurrences@,
            n == occurrences@.len(),
            group_error(files@, *group, g as int) == occurrences_error(
                files@,
                occurrences@,
                group.normalized_len,
                g as int,
                n,
            ),
            k <= n,
            occurrences_error(files@, occurrences@, group.normalized_len, g as int, k as int) is None,
        decreases n - k,
    {
        match check_occurrence(files, occurrences[k], group.normalized_len, g) {
            Ok(()) => {},
            Err(e) => {
                proof {
                    assert(occurrences_error(files@, occurrences@, group.normalized_len, g as int, k + 1) == Some(e));
                    lemma_occurrences_error_extend(files@, occurrences@, group.normalized_len, g as int, k + 1, n);
                }
                return Err(e);
            },
        }
        k = k + 1;
    }
    Ok(())
}

/// Index of the canonical copy among `occurrences`.
fn canonical_index(occurrences: &Vec<Occurrence>) -> (index: usize)
    requires
        occurrences@.len() > 0,
    ensures
        index < occurrences@.len(),
        occurrences@[index as int] == canonical(occurrences@),
{
    let ghost occs = occurrences@;
    let mut best: usize = 0;
    let mut best_key = occurrence_sort_key(occurrences[0]);
    let mut k: usize = 1;
    while k < occurrences.len()
        invariant
            occs == occurrences@,
            1 <= k <= occs.len(),
            best < k,
            best_key as int == occurrence_key(occs[best as int]),
            forall|j: int| 0 <= j < k ==> occurrence_key(occs[best as int]) <= occurrence_key(#[trigger] occs[j]),
        decreases occs.len() - k,
    {
        let key = occurrence_sort_key(occurrences[k]);
        if key < best_key {
            best = k;
            best_key = key;
        }
        k = k + 1;
    }
    proof {
        let m = occs[best as int];
        assert(occs.contains(m));
        let c = canonical(occs);
        assert(occs.contains(c) && forall|j: int| 0 <= j < occs.len() ==> occurrence_key(c) <= occurrence_key(#[trigger] occs[j]));
        let j = choose|j: int| 0 <= j < occs.len() && occs[j] == c;
        assert(occurrence_key(m) <= occurrence_key(occs[j]));
        assert(occurrence_key(c) <= occurrence_key(occs[best as int]));
        lemma_occurrence_key(m, c);
    }
    best
}

/// Marks the substantive lines that occurrence `o` covers.
fn mark_redundant_lines(files: &Vec<PreparedFile>, redundant: &mut Vec<Vec<bool>>, o: Occurrence)
    requires
        o.file < files@.len(),
        o.normalized_start + o.normalized_len <= files@[o.file as int].lines@.len(),
        old(redundant)@.len() == files@.len(),
        forall|f: int| 0 <= f < files@.len() ==> (#[trigger] old(redundant)@[f])@.len() == files@[f].lines@.len(),
    ensures
        final(redundant)@.len() == files@.len(),
        forall|f: int| 0 <= f < files@.len() ==> (#[trigger] final(redundant)@[f])@.len() == files@[f].lines@.len(),
        forall|f: int, l: int|
            0 <= f < files@.len() && 0 <= l < files@[f].lines@.len() ==> #[trigger] final(redundant)@[f]@[l] == (
            old(redundant)@[f]@[l] || (f == o.file && o.normalized_start <= l < o.normalized_start
                + o.normalized_len && files@[f].lines@[l].effective)),
{
    let f = o.file as usize;
    let lines = &files[f].lines;
    let total = lines.len();
    let mut row: Vec<bool> = Vec::new();
    redundant.set_and_swap(f, &mut row);
    let ghost old_row = row@;
    let start = o.normalized_start as usize;
    let end = start + o.normalized_len as usize;
    let mut l = start;
    while l < end
        invariant
            lines@ == files@[f as int].lines@,
            start <= l <= end <= lines@.len(),
            row@.len() == lines@.len(),
            old_row.len() == lines@.len(),
            forall|i: int| 0 <= i < lines@.len() ==> #[trigger] row@[i] == (old_row[i] || (start <= i < l && lines@[i].effective)),
        decreases end - l,
    {
        if lines[l].effective {
            row.set(l, true);
        }
        l = l + 1;
    }
    redundant.set(f, row);
}

/// Repository-level duplication counts of `groups` over `corpus`, or the
/// error of the first group that does not fit the corpus.
///
/// Each group's canonical copy is its first occurrence in sort order;
/// every other occurrence makes its substantive lines redundant, and a
/// line counts once however many occurrences cover it.
pub fn calculate_metrics(corpus: &Corpus, groups: &Vec<DuplicateGroup>) -> (result: Result<Metrics, MetricsError>)
    requires
        source_line_total(corpus.files@) <= u64::MAX,
        total_lines(corpus.files@) <= u64::MAX,
    ensures
        result is Ok <==> groups_error(corpus.files@, groups@, groups@.len() as int) is None,
        result matches Err(e) ==> groups_error(corpus.files@, groups@, groups@.len() as int) == Some(e),
        result matches Ok(m) ==> {
            &&& m.files == corpus.files@.len()
            &&& m.source_lines == source_line_total(corpus.files@)
            &&& m.analyzed_lines == effective_total(corpus.files@)
            &&& m.duplicate_groups == groups@.len()
            &&& m.duplicate_lines == redundant_total(corpus.files@, groups@, corpus.files@.len() as int)
        },
{
    let files = &corpus.files;
    let ghost fs = files@;
    let n = files.len();
    let mut source_lines: u64 = 0;
    let mut analyzed_lines: u64 = 0;
    let mut redundant: Vec<Vec<bool>> = Vec::new();
    let mut f: usize = 0;
    while f < n
        invariant
            fs == files@,
            n == fs.len(),
            f <= n,
            source_line_total(fs) <= u64::MAX,
            total_lines(fs) <= u64::MAX,
            source_lines == source_line_total(fs.take(f as int)),
            analyzed_lines == effective_total(fs.take(f as int)),
            analyzed_lines <= total_lines(fs.take(f as int)),
            redundant@.len() == f,
            forall|i: int| 0 <= i < f ==> (#[trigger] redundant@[i])@.len() == fs[i].lines@.len(),
            forall|i: int, l: int| 0 <= i < f && 0 <= l < fs[i].lines@.len() ==> !#[trigger] redundant@[i]@[l],
        decreases n - f,
    {
        proof {
            assert(fs.take(f + 1).drop_last() =~= fs.take(f as int));
            lemma_prefix_totals(fs, f + 1);
        }
        source_lines = source_lines + physical_line_count(files[f].source.as_str());
        let lines = &files[f].lines;
        let mut row: Vec<bool> = Vec::new();
        let mut effective: u64 = 0;
        let mut l: usize = 0;
        while l < lines.len()
            invariant
                l <= lines@.len(),
                row@.len() == l,
                forall|i: int| 0 <= i < l ==> !#[trigger] row@[i],
                effective == effective_in(lines@.take(l as int)),
                effective <= l,
            decreases lines@.len() - l,
        {
            proof {
                assert(lines@.take(l + 1).drop_last() =~= lines@.take(l as int));
            }
            if lines[l].effective {
                effective = effective + 1;
            }
            row.push(false);
            l = l + 1;
        }
        proof {
            assert(lines@.take(l as int) =~= lines@);
        }
        analyzed_lines = analyzed_lines + effective;
        redundant.push(row);
        f = f + 1;
    }
    proof {
        assert(fs.take(n as int) =~= fs);
    }
    let mut g: usize = 0;
    while g < groups.len()
        invariant
            fs == files@,
            fs == corpus.files@,
            g <= groups@.len(),
            groups_error(fs, groups@, g as int) is None,
            redundant@.len() == fs.len(),
            forall|i: int| 0 <= i < fs.len() ==> (#[trigger] redundant@[i])@.len() == fs[i].lines@.len(),
            forall|i: int, l: int|
                0 <= i < fs.len() && 0 <= l < fs[i].lines@.len() ==> #[trigger] redundant@[i]@[l] == marked_before(
                    fs,
                    groups@,
                    i,
                    l,
                    g as int,
                    0,
                ),
        decreases groups@.len() - g,
    {
        let group = &groups[g];
        match validate_group(files, group, g) {
            Ok(()) => {},
            Err(e) => {
                proof {
                    assert(*group == groups@[g as int]);
                    assert(group_error(fs, groups@[g as int], g as int) == Some(e));
                    assert(groups_error(fs, groups@, g + 1) == Some(e));
                    lemma_groups_error_extend(fs, groups@, g + 1, groups@.len() as int);
                }
                return Err(e);
            },
        }
        let occurrences = &group.occurrences;
        let canonical_at = canonical_index(occurrences);
        proof {
            assert(group_error(fs, groups@[g as int], g as int) is None);
            assert(!exists|o: Occurrence| repeated(occurrences@, o));
        }
        let mut k: usize = 0;
        while k < occurrences.len()
            invariant
                fs == files@,
                g < groups@.len(),
                occurrences@ == groups@[g as int].occurrences@,
                groups_error(fs, groups@, g as int + 1) is None,
                group_error(fs, groups@[g as int], g as int) is None,
                !exists|o: Occurrence| repeated(occurrences@, o),
                canonical_at < occurrences@.len(),
                occurrences@[canonical_at as int] == canonical(occurrences@),
                k <= occurrences@.len(),
                redundant@.len() == fs.len(),
                forall|i: int| 0 <= i < fs.len() ==> (#[trigger] redundant@[i])@.len() == fs[i].lines@.len(),
                forall|i: int, l: int|
                    0 <= i < fs.len() && 0 <= l < fs[i].lines@.len() ==> #[trigger] redundant@[i]@[l] == marked_before(
                        fs,
                        groups@,
                        i,
                        l,
                        g as int,
                        k as int,
                    ),
            decreases occurrences@.len() - k,
        {
            let o = occurrences[k];
            proof {
                lemma_valid_occurrence(fs, groups@[g as int], g as int, k as int);
            }
            if k != canonical_at {
                mark_redundant_lines(files, &mut redundant, o);
            }
            proof {
                if k != canonical_at {
                    assert(o != canonical(occurrences@)) by {
                        if o == canonical(occurrences@) {
                            let (a, b) = if k < canonical_at {
                                (k as int, canonical_at as int)
                            } else {
                                (canonical_at as int, k as int)
                            };
                            assert(occurrences@[a] == o && occurrences@[b] == o);
                            assert(repeated(occurrences@, o));
                        }
                    }
                }
                assert forall|i: int, l: int| 0 <= i < fs.len() && 0 <= l < fs[i].lines@.len() implies #[trigger] redundant@[i]@[l]
                    == marked_before(fs, groups@, i, l, g as int, k + 1) by {
                    lemma_marked_step(fs, groups@, i, l, g as int, k as int);
                }
            }
            k = k + 1;
        }
        proof {
            assert forall|i: int, l: int| 0 <= i < fs.len() && 0 <= l < fs[i].lines@.len() implies #[trigger] redundant@[i]@[l]
                == marked_before(fs, groups@, i, l, g + 1, 0) by {
                lemma_marked_next_group(fs, groups@, i, l, g as int);
            }
        }
        g = g + 1;
    }
    let mut duplicate_lines: u64 = 0;
    let mut f: usize = 0;
    while f < n
        invariant
            fs == files@,
            n == fs.len(),
            f <= n,
            total_lines(fs) <= u64::MAX,
            redundant@.len() == fs.len(),
            forall|i: int| 0 <= i < fs.len() ==> (#[trigger] redundant@[i])@.len() == fs[i].lines@.len(),
            forall|i: int, l: int|
                0 <= i < fs.len() && 0 <= l < fs[i].lines@.len() ==> #[trigger] redundant@[i]@[l] == line_redundant(
                    fs,
                    groups@,
                    i,
                    l,
                ),
            duplicate_lines == redundant_total(fs, groups@, f as int),
            duplicate_lines <= total_lines(fs.take(f as int)),
        decreases n - f,
    {
        proof {
            assert(fs.take(f + 1).drop_last() =~= fs.take(f as int));
            lemma_prefix_totals(fs, f + 1);
        }
        let row = &redundant[f];
        let mut count: u64 = 0;
        let mut l: usize = 0;
        while l < row.len()
            invariant
                row@ == redundant@[f as int]@,
                f < fs.len(),
                row@.len() == fs[f as int].lines@.len(),
                forall|i: int| 0 <= i < row@.len() ==> #[trigger] row@[i] == line_redundant(fs, groups@, f as int, i),
                l <= row@.len(),
                count == redundant_in_file(fs, groups@, f as int, l as int),
                count <= l,
            decreases row@.len() - l,
        {
            if row[l] {
                count = count + 1;
            }
            l = l + 1;
        }
        duplicate_lines = duplicate_lines + count;
        f = f + 1;
    }
    Ok(
        Metrics {
            files: n as u64,
            source_lines,
            analyzed_lines,
            duplicate_groups: groups.len() as u64,
            duplicate_lines,
        },
    )
}

/// Totals over a prefix of the files stay within the totals over all.
proof fn lemma_prefix_totals(fs: Seq<PreparedFile>, m: int)
    requires
        0 <= m <= fs.len(),
    ensures
        source_line_total(fs.take(m)) <= source_line_total(fs),
        total_lines(fs.take(m)) <= total_lines(fs),
    decreases fs.len() - m,
{
    if m < fs.len() {
        lemma_prefix_totals(fs, m + 1);
        assert(fs.take(m + 1).drop_last() =~= fs.take(m));
    } else {
        assert(fs.take(m) =~= fs);
    }
}

/// A group that passes validation has each occurrence inside its file.
pub proof fn lemma_valid_occurrence(fs: Seq<PreparedFile>, group: DuplicateGroup, g: int, k: int)
    requires
        group_error(fs, group, g) is None,
        0 <= k < group.occurrences@.len(),
    ensures
        group.occurrences@.len() > 0,
        group.occurrences@[k].file < fs.len(),
        group.occurrences@[k].normalized_len > 0,
        group.occurrences@[k].normalized_start + group.occurrences@[k].normalized_len <= fs[group.occurrences@[k].file as int].lines@.len(),
{
    let occs = group.occurrences@;
    lemma_occurrences_error_prefix(fs, occs, group.normalized_len, g, k + 1, occs.len() as int);
}

proof fn lemma_occurrences_error_prefix(fs: Seq<PreparedFile>, occs: Seq<Occurrence>, length: u32, g: int, m: int, n: int)
    requires
        0 <= m <= n <= occs.len(),
        occurrences_error(fs, occs, length, g, n) is None,
    ensures
        occurrences_error(fs, occs, length, g, m) is None,
    decreases n - m,
{
    if m < n {
        lemma_occurrences_error_prefix(fs, occs, length, g, m, n - 1);
    }
}

proof fn lemma_marked_step(fs: Seq<PreparedFile>, groups: Seq<DuplicateGroup>, f: int, l: int, g: int, k: int)
    requires
        0 <= g < groups.len(),
        0 <= k < groups[g].occurrences@.len(),
    ensures
        marked_before(fs, groups, f, l, g, k + 1) == (marked_before(fs, groups, f, l, g, k) || marks_line(
            fs,
            groups,
            g,
            k,
            f,
            l,
        )),
{
    if marked_before(fs, groups, f, l, g, k + 1) {
        let (a, b) = choose|a: int, b: int|
            0 <= a < groups.len() && 0 <= b < groups[a].occurrences@.len() && (a < g || (a == g && b < k + 1))
                && #[trigger] marks_line(fs, groups, a, b, f, l);
        if !(a == g && b == k) {
            assert(marks_line(fs, groups, a, b, f, l));
        }
    }
    if marked_before(fs, groups, f, l, g, k) {
        let (a, b) = choose|a: int, b: int|
            0 <= a < groups.len() && 0 <= b < groups[a].occurrences@.len() && (a < g || (a == g && b < k))
                && #[trigger] marks_line(fs, groups, a, b, f, l);
        assert(marks_line(fs, groups, a, b, f, l));
    }
    if marks_line(fs, groups, g, k, f, l) {
        assert(marks_line(fs, groups, g, k, f, l));
    }
}

proof fn lemma_marked_next_group(fs: Seq<PreparedFile>, groups: Seq<DuplicateGroup>, f: int, l: int, g: int)
    requires
        0 <= g < groups.len(),
    ensures
        marked_before(fs, groups, f, l, g + 1, 0) == marked_before(
            fs,
            groups,
            f,
            l,
            g,
            groups[g].occurrences@.len() as int,
        ),
{
    let n = groups[g].occurrences@.len() as int;
    if marked_before(fs, groups, f, l, g + 1, 0) {
        let (a, b) = choose|a: int, b: int|
            0 <= a < groups.len() && 0 <= b < groups[a].occurrences@.len() && (a < g + 1 || (a == g + 1 && b < 0))
                && #[trigger] marks_line(fs, groups, a, b, f, l);
        assert(marks_line(fs, groups, a, b, f, l));
    }
    if marked_before(fs, groups, f, l, g, n) {
        let (a, b) = choose|a: int, b: int|
            0 <= a < groups.len() && 0 <= b < groups[a].occurrences@.len() && (a < g || (a == g && b < n))
                && #[trigger] marks_line(fs, groups, a, b, f, l);
        assert(marks_line(fs, groups, a, b, f, l));
    }
}

// ----------------------------------------------------------------------
// Laws.
proof fn lemma_redundant_in_file_bound(files: Seq<PreparedFile>, groups: Seq<DuplicateGroup>, f: int, n: int)
    requires
        0 <= f < files.len(),
        0 <= n <= files[f].lines@.len(),
    ensures
        redundant_in_file(files, groups, f, n) <= effective_in(files[f].lines@.take(n)),
    decreases n,
{
    if n > 0 {
        lemma_redundant_in_file_bound(files, groups, f, n - 1);
        let lines = files[f].lines@;
        assert(lines.take(n).drop_last() =~= lines.take(n - 1));
        if line_redundant(files, groups, f, n - 1) {
            let (a, b) = choose|a: int, b: int|
                0 <= a < groups.len() && 0 <= b < groups[a].occurrences@.len() && (a < groups.len() || (a
                    == groups.len() && b < 0)) && #[trigger] marks_line(files, groups, a, b, f, n - 1);
            assert(lines.take(n).last() == lines[n - 1]);
        }
    }
}

proof fn lemma_redundant_total_bound(files: Seq<PreparedFile>, groups: Seq<DuplicateGroup>, n: int)
    requires
        0 <= n <= files.len(),
    ensures
        redundant_total(files, groups, n) <= effective_total(files.take(n)),
    decreases n,
{
    if n > 0 {
        lemma_redundant_total_bound(files, groups, n - 1);
        lemma_redundant_in_file_bound(files, groups, n - 1, files[n - 1].lines@.len() as int);
        assert(files.take(n).drop_last() =~= files.take(n - 1));
        assert(files[n - 1].lines@.take(files[n - 1].lines@.len() as int) =~= files[n - 1].lines@);
    }
}

/// Duplicate lines never exceed analyzed lines: only substantive lines
/// count as redundant, and each counts once however many copies cover it.
pub proof fn law_duplicate_lines_within_analyzed(files: Seq<PreparedFile>, groups: Seq<DuplicateGroup>)
    ensures
        redundant_total(files, groups, files.len() as int) <= effective_total(files),
{
    lemma_redundant_total_bound(files, groups, files.len() as int);
    assert(files.take(files.len() as int) =~= files);
}

} // verus!
