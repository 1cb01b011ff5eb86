use vstd::prelude::*;

use crate::baseline::{
    no_more_entries,
    build_baseline,
    count_in,
    counts_ok,
    counts_sorted,
    entry_count,
    fingerprint_ok,
    groups_sorted,
    recorded_by_some,
    occurrence_valid,
    occurrences_recordable,
    group_fingerprint_text,
    lemma_entry_count_absent,
    lemma_sorted_unique,
    occurrence_paths,
    records_group,
    records_some,
    repeats_group_fingerprint,
    same_baseline_group,
    same_path_count,
    Baseline,
    BaselineError,
    BaselineGroup,
    BaselinePathCount,
};
use crate::corpus::Corpus;
use crate::model::{same_group, DuplicateGroup, NormalizationOptions};
use crate::order::{bytes_le, sort_indices_by_text, text_bytes};
use crate::baseline_status::{
    lemma_totals_prefix,
    total_accepted,
    total_active,
    total_stale,
    BaselineStatus,
    BaselineStatusGroup,
    BaselineStatusPath,
    DebtCounts,
    same_status_group,
    same_status_path,
};
use crate::corpus::str_bytes;
use crate::order::{
    bytes_lt,
    compare_bytes,
    lemma_bytes_lt_asymmetric,
    lemma_bytes_lt_irreflexive,
    lemma_bytes_lt_transitive,
    Comparison,
};

verus! {

/// Paths strictly increasing by their UTF-8 bytes, hence distinct.
pub open spec fn paths_sorted(occ: Seq<BaselinePathCount>) -> bool {
    forall|a: int, b: int|
        0 <= a < b < occ.len() ==> bytes_lt(
            str_bytes(#[trigger] occ[a].path@),
            str_bytes(#[trigger] occ[b].path@),
        )
}

/// Status paths strictly increasing by their UTF-8 bytes.
pub open spec fn status_paths_sorted(paths: Seq<BaselineStatusPath>) -> bool {
    forall|a: int, b: int|
        0 <= a < b < paths.len() ==> bytes_lt(
            str_bytes(#[trigger] paths[a].path@),
            str_bytes(#[trigger] paths[b].path@),
        )
}

/// Copies counted for `path` (the last entry for it wins; 0 when absent).
pub open spec fn count_at(occ: Seq<BaselinePathCount>, path: Seq<char>) -> nat
    decreases occ.len(),
{
    if occ.len() == 0 {
        0
    } else if occ.last().path@ == path {
        occ.last().count as nat
    } else {
        count_at(occ.drop_last(), path)
    }
}

/// Some entry of `occ` names `path`.
pub open spec fn names_path(occ: Seq<BaselinePathCount>, path: Seq<char>) -> bool {
    exists|i: int| 0 <= i < occ.len() && (#[trigger] occ[i]).path@ == path
}

/// Some status entry names `path`.
pub open spec fn status_names_path(paths: Seq<BaselineStatusPath>, path: Seq<char>) -> bool {
    exists|k: int| 0 <= k < paths.len() && (#[trigger] paths[k]).path@ == path
}

/// `a - b`, or 0 when `b` is larger.
pub open spec fn saturating_diff(a: nat, b: nat) -> nat {
    if a >= b {
        (a - b) as nat
    } else {
        0
    }
}

/// The smaller of `a` and `b`.
pub open spec fn min_nat(a: nat, b: nat) -> nat {
    if a <= b {
        a
    } else {
        b
    }
}

/// Sum of the accepted counts of `paths`.
pub open spec fn sum_accepted(paths: Seq<BaselineStatusPath>) -> int
    decreases paths.len(),
{
    if paths.len() == 0 {
        0
    } else {
        sum_accepted(paths.drop_last()) + paths.last().accepted
    }
}

/// Sum of the active counts of `paths`.
pub open spec fn sum_active(paths: Seq<BaselineStatusPath>) -> int
    decreases paths.len(),
{
    if paths.len() == 0 {
        0
    } else {
        sum_active(paths.drop_last()) + paths.last().active
    }
}

/// Sum of the stale counts of `paths`.
pub open spec fn sum_stale(paths: Seq<BaselineStatusPath>) -> int
    decreases paths.len(),
{
    if paths.len() == 0 {
        0
    } else {
        sum_stale(paths.drop_last()) + paths.last().stale
    }
}

/// The occurrences of an optional group, empty when absent.
pub open spec fn occurrences_of(group: Option<&BaselineGroup>) -> Seq<BaselinePathCount> {
    match group {
        Some(g) => g.occurrences@,
        None => seq![],
    }
}

proof fn lemma_count_absent(occ: Seq<BaselinePathCount>, path: Seq<char>)
    requires
        forall|t: int| 0 <= t < occ.len() ==> (#[trigger] occ[t]).path@ != path,
    ensures
        count_at(occ, path) == 0,
    decreases occ.len(),
{
    if occ.len() > 0 {
        lemma_count_absent(occ.drop_last(), path);
    }
}

proof fn lemma_count_present(occ: Seq<BaselinePathCount>, k: int)
    requires
        0 <= k < occ.len(),
        forall|t: int| 0 <= t < occ.len() && t != k ==> (#[trigger] occ[t]).path@ != occ[k].path@,
    ensures
        count_at(occ, occ[k].path@) == occ[k].count,
    decreases occ.len(),
{
    if k < occ.len() - 1 {
        lemma_count_present(occ.drop_last(), k);
    }
}

/// In path-sorted entries, the entry for `occ[k]`'s path is `occ[k]`.
proof fn lemma_sorted_count(occ: Seq<BaselinePathCount>, k: int)
    requires
        paths_sorted(occ),
        0 <= k < occ.len(),
    ensures
        count_at(occ, occ[k].path@) == occ[k].count,
{
    assert forall|t: int| 0 <= t < occ.len() && t != k implies (#[trigger] occ[t]).path@ != occ[k].path@ by {
        if t < k {
            assert(bytes_lt(str_bytes(occ[t].path@), str_bytes(occ[k].path@)));
        } else {
            assert(bytes_lt(str_bytes(occ[k].path@), str_bytes(occ[t].path@)));
        }
        if occ[t].path@ == occ[k].path@ {
            lemma_bytes_lt_irreflexive(str_bytes(occ[k].path@));
        }
    }
    lemma_count_present(occ, k);
}

/// Appends the debt of `path` with `current` copies now and `baseline`
/// accepted.
fn push_path_debt(
    paths: &mut Vec<BaselineStatusPath>,
    summary: &mut DebtCounts,
    path: &String,
    current: u32,
    baseline: u32,
)
    requires
        old(summary).accepted + 4294967295 <= u64::MAX,
        old(summary).active + 4294967295 <= u64::MAX,
        old(summary).stale + 4294967295 <= u64::MAX,
    ensures
        final(paths)@.len() == old(paths)@.len() + 1,
        forall|k: int| 0 <= k < old(paths)@.len() ==> #[trigger] final(paths)@[k] == old(paths)@[k],
        final(paths)@.last().path@ == path@,
        final(paths)@.last().accepted == min_nat(current as nat, baseline as nat),
        final(paths)@.last().active == saturating_diff(current as nat, baseline as nat),
        final(paths)@.last().stale == saturating_diff(baseline as nat, current as nat),
        final(summary).accepted == old(summary).accepted + final(paths)@.last().accepted,
        final(summary).active == old(summary).active + final(paths)@.last().active,
        final(summary).stale == old(summary).stale + final(paths)@.last().stale,
{
    let accepted: u64 = if current <= baseline {
        current as u64
    } else {
        baseline as u64
    };
    let active: u64 = if current >= baseline {
        (current - baseline) as u64
    } else {
        0
    };
    let stale: u64 = if baseline >= current {
        (baseline - current) as u64
    } else {
        0
    };
    summary.add(DebtCounts { accepted, active, stale });
    paths.push(BaselineStatusPath { path: path.clone(), accepted, active, stale });
}

/// `status` splits, path by path, the copies counted now (`cur`) and the
/// copies the baseline accepted (`base`): the common part is accepted, the
/// excess now is active and the excess in the baseline is stale; the
/// summary adds the paths up.
#[verifier::opaque]
pub open spec fn describes_debt(status: BaselineStatusGroup, cur: Seq<BaselinePathCount>, base: Seq<BaselinePathCount>) -> bool {
    let paths = status.paths@;
    &&& status_paths_sorted(paths)
    &&& forall|k: int|
        0 <= k < paths.len() ==> names_path(cur, (#[trigger] paths[k]).path@) || names_path(
            base,
            paths[k].path@,
        )
    &&& forall|i: int| 0 <= i < cur.len() ==> status_names_path(paths, (#[trigger] cur[i]).path@)
    &&& forall|j: int| 0 <= j < base.len() ==> status_names_path(paths, (#[trigger] base[j]).path@)
    &&& forall|k: int|
        0 <= k < paths.len() ==> {
            let p = #[trigger] paths[k];
            let c = count_at(cur, p.path@);
            let b = count_at(base, p.path@);
            &&& p.accepted == min_nat(c, b)
            &&& p.active == saturating_diff(c, b)
            &&& p.stale == saturating_diff(b, c)
        }
    &&& status.summary.accepted == sum_accepted(paths)
    &&& status.summary.active == sum_active(paths)
    &&& status.summary.stale == sum_stale(paths)
}

proof fn lemma_same_path_sums(a: Seq<BaselineStatusPath>, b: Seq<BaselineStatusPath>)
    requires
        a.len() == b.len(),
        forall|k: int| 0 <= k < a.len() ==> same_status_path(#[trigger] a[k], b[k]),
    ensures
        sum_accepted(a) == sum_accepted(b),
        sum_active(a) == sum_active(b),
        sum_stale(a) == sum_stale(b),
    decreases a.len(),
{
    if a.len() > 0 {
        let (ia, ib) = (a.drop_last(), b.drop_last());
        assert forall|k: int| 0 <= k < ia.len() implies same_status_path(#[trigger] ia[k], ib[k]) by {
            assert(ia[k] == a[k] && ib[k] == b[k]);
        }
        lemma_same_path_sums(ia, ib);
        assert(same_status_path(a[a.len() - 1], b[b.len() - 1]));
    }
}

/// A copy of a status group describes the same debt.
proof fn lemma_same_status_describes(
    a: BaselineStatusGroup,
    b: BaselineStatusGroup,
    cur: Seq<BaselinePathCount>,
    base: Seq<BaselinePathCount>,
)
    requires
        same_status_group(a, b),
        describes_debt(b, cur, base),
    ensures
        describes_debt(a, cur, base),
{
    reveal(describes_debt);
    let (pa, pb) = (a.paths@, b.paths@);
    lemma_same_path_sums(pa, pb);
    assert forall|x: int, y: int| 0 <= x < y < pa.len() implies bytes_lt(
        str_bytes(#[trigger] pa[x].path@),
        str_bytes(#[trigger] pa[y].path@),
    ) by {
        assert(same_status_path(pa[x], pb[x]) && same_status_path(pa[y], pb[y]));
        assert(bytes_lt(str_bytes(pb[x].path@), str_bytes(pb[y].path@)));
    }
    assert forall|k: int| 0 <= k < pa.len() implies names_path(cur, (#[trigger] pa[k]).path@) || names_path(
        base,
        pa[k].path@,
    ) by {
        assert(same_status_path(pa[k], pb[k]));
        assert(names_path(cur, pb[k].path@) || names_path(base, pb[k].path@));
    }
    assert forall|i: int| 0 <= i < cur.len() implies status_names_path(pa, (#[trigger] cur[i]).path@) by {
        assert(status_names_path(pb, cur[i].path@));
        let k = choose|k: int| 0 <= k < pb.len() && (#[trigger] pb[k]).path@ == cur[i].path@;
        assert(same_status_path(pa[k], pb[k]));
    }
    assert forall|j: int| 0 <= j < base.len() implies status_names_path(pa, (#[trigger] base[j]).path@) by {
        assert(status_names_path(pb, base[j].path@));
        let k = choose|k: int| 0 <= k < pb.len() && (#[trigger] pb[k]).path@ == base[j].path@;
        assert(same_status_path(pa[k], pb[k]));
    }
    assert forall|k: int| 0 <= k < pa.len() implies {
        let p = #[trigger] pa[k];
        let c = count_at(cur, p.path@);
        let bb = count_at(base, p.path@);
        &&& p.accepted == min_nat(c, bb)
        &&& p.active == saturating_diff(c, bb)
        &&& p.stale == saturating_diff(bb, c)
    } by {
        assert(same_status_path(pa[k], pb[k]));
        let q = pb[k];
        assert(q.accepted == min_nat(count_at(cur, q.path@), count_at(base, q.path@)));
    }
}

/// Each count of `g`'s summary is at most `bound`.
pub open spec fn summary_within(g: BaselineStatusGroup, bound: int) -> bool {
    &&& g.summary.accepted <= bound
    &&& g.summary.active <= bound
    &&& g.summary.stale <= bound
}

/// Some group of `groups` holds the same values as `g`.
pub open spec fn copy_among(groups: Seq<BaselineStatusGroup>, g: BaselineStatusGroup) -> bool {
    exists|i: int| 0 <= i < groups.len() && same_status_group(g, #[trigger] groups[i])
}

proof fn lemma_same_status_symmetric(a: BaselineStatusGroup, b: BaselineStatusGroup)
    requires
        same_status_group(a, b),
    ensures
        same_status_group(b, a),
{
    assert forall|k: int| 0 <= k < b.paths@.len() implies same_status_path(#[trigger] b.paths@[k], a.paths@[k]) by {
        assert(same_status_path(a.paths@[k], b.paths@[k]));
    }
}

/// Some group of `groups` has the summary of `g`.
pub open spec fn summary_among(groups: Seq<BaselineStatusGroup>, g: BaselineStatusGroup) -> bool {
    exists|i: int| 0 <= i < groups.len() && (#[trigger] groups[i]).summary == g.summary
}

proof fn lemma_totals_within(groups: Seq<BaselineStatusGroup>, bound: int)
    requires
        bound >= 0,
        forall|t: int| 0 <= t < groups.len() ==> summary_within(#[trigger] groups[t], bound),
    ensures
        total_accepted(groups) <= groups.len() * bound,
        total_active(groups) <= groups.len() * bound,
        total_stale(groups) <= groups.len() * bound,
    decreases groups.len(),
{
    if groups.len() > 0 {
        let init = groups.drop_last();
        assert forall|t: int| 0 <= t < init.len() implies summary_within(#[trigger] init[t], bound) by {
            assert(init[t] == groups[t]);
        }
        lemma_totals_within(init, bound);
        assert(summary_within(groups[groups.len() - 1], bound));
        assert(init.len() * bound + bound == groups.len() * bound) by (nonlinear_arith)
            requires
                init.len() + 1 == groups.len(),
        ;
    }
}

/// The debt of one group, path by path: of the copies counted now and
/// the copies the baseline accepted, the common part is accepted, the
/// excess now is active and the excess in the baseline is stale.
pub fn compare_group_status(current: Option<&BaselineGroup>, baseline: Option<&BaselineGroup>) -> (status:
    BaselineStatusGroup)
    requires
        current is Some || baseline is Some,
        current matches Some(c) ==> paths_sorted(c.occurrences@),
        baseline matches Some(b) ==> paths_sorted(b.occurrences@),
        occurrences_of(current).len() + occurrences_of(baseline).len() <= u32::MAX,
    ensures
        ({
            let identity = match current {
                Some(c) => *c,
                None => *baseline->0,
            };
            status.fingerprint@ == identity.fingerprint@ && status.lines == identity.lines
        }),
        describes_debt(status, occurrences_of(current), occurrences_of(baseline)),
        summary_within(status, (occurrences_of(current).len() + occurrences_of(baseline).len()) as int * 4294967295),
{
    reveal(describes_debt);
    let (fingerprint, lines) = match current {
        Some(group) => (group.fingerprint.clone(), group.lines),
        None => {
            let group = baseline.unwrap();
            (group.fingerprint.clone(), group.lines)
        },
    };
    let empty: Vec<BaselinePathCount> = Vec::new();
    let cur: &Vec<BaselinePathCount> = match current {
        Some(group) => &group.occurrences,
        None => &empty,
    };
    let base: &Vec<BaselinePathCount> = match baseline {
        Some(group) => &group.occurrences,
        None => &empty,
    };
    proof {
        assert(cur@ == occurrences_of(current));
        assert(base@ == occurrences_of(baseline));
    }
    let mut paths: Vec<BaselineStatusPath> = Vec::new();
    let mut summary = DebtCounts::default();
    let mut i: usize = 0;
    let mut j: usize = 0;
    while i < cur.len() || j < base.len()
        invariant
            paths_sorted(cur@),
            paths_sorted(base@),
            cur@.len() + base@.len() <= u32::MAX,
            i <= cur@.len(),
            j <= base@.len(),
            paths@.len() <= i + j,
            summary.accepted <= paths@.len() * 4294967295,
            summary.active <= paths@.len() * 4294967295,
            summary.stale <= paths@.len() * 4294967295,
            status_paths_sorted(paths@),
            forall|k: int|
                0 <= k < paths@.len() ==> names_path(cur@, (#[trigger] paths@[k]).path@) || names_path(
                    base@,
                    paths@[k].path@,
                ),
            forall|t: int| 0 <= t < i ==> status_names_path(paths@, (#[trigger] cur@[t]).path@),
            forall|t: int| 0 <= t < j ==> status_names_path(paths@, (#[trigger] base@[t]).path@),
            forall|k: int, t: int|
                0 <= k < paths@.len() && i <= t < cur@.len() ==> bytes_lt(
                    str_bytes((#[trigger] paths@[k]).path@),
                    str_bytes((#[trigger] cur@[t]).path@),
                ),
            forall|k: int, t: int|
                0 <= k < paths@.len() && j <= t < base@.len() ==> bytes_lt(
                    str_bytes((#[trigger] paths@[k]).path@),
                    str_bytes((#[trigger] base@[t]).path@),
                ),
            forall|k: int|
                0 <= k < paths@.len() ==> {
                    let p = #[trigger] paths@[k];
                    let c = count_at(cur@, p.path@);
                    let b = count_at(base@, p.path@);
                    &&& p.accepted == min_nat(c, b)
                    &&& p.active == saturating_diff(c, b)
                    &&& p.stale == saturating_diff(b, c)
                },
            summary.accepted == sum_accepted(paths@),
            summary.active == sum_active(paths@),
            summary.stale == sum_stale(paths@),
        decreases cur@.len() - i + base@.len() - j,
    {
        let order = if i < cur.len() && j < base.len() {
            compare_bytes(cur[i].path.as_str().as_bytes(), base[j].path.as_str().as_bytes())
        } else if i < cur.len() {
            Comparison::Less
        } else {
            Comparison::Greater
        };
        let ghost before = paths@;
        proof {
            assert(paths@.len() + 1 <= cur@.len() + base@.len());
            assert(paths@.len() * 4294967295 + 4294967295 <= u64::MAX) by (nonlinear_arith)
                requires
                    paths@.len() + 1 <= 4294967295,
            ;
        }
        match order {
            Comparison::Less => {
                // cur[i] alone: no baseline entry names its path
                let ghost p = cur@[i as int].path@;
                proof {
                    lemma_sorted_count(cur@, i as int);
                    assert forall|t: int| 0 <= t < base@.len() implies (#[trigger] base@[t]).path@ != p by {
                        if t < j {
                            let k = choose|k: int| 0 <= k < paths@.len() && (#[trigger] paths@[k]).path@
                                == base@[t].path@;
                            assert(bytes_lt(str_bytes(paths@[k].path@), str_bytes(cur@[i as int].path@)));
                            if base@[t].path@ == p {
                                lemma_bytes_lt_irreflexive(str_bytes(p));
                            }
                        } else if j < base@.len() {
                            if t > j {
                                assert(bytes_lt(str_bytes(base@[j as int].path@), str_bytes(base@[t].path@)));
                            }
                            if base@[t].path@ == p {
                                if t > j {
                                    lemma_bytes_lt_transitive(
                                        str_bytes(p),
                                        str_bytes(base@[j as int].path@),
                                        str_bytes(p),
                                    );
                                } else {
                                    lemma_bytes_lt_asymmetric(str_bytes(p), str_bytes(p));
                                }
                                lemma_bytes_lt_irreflexive(str_bytes(p));
                            }
                        }
                    }
                    lemma_count_absent(base@, p);
                }
                push_path_debt(&mut paths, &mut summary, &cur[i].path, cur[i].count, 0);
                proof {
                    assert(paths@.drop_last() =~= before);
                    lemma_after_push(before, paths@, cur@, base@, i as int, j as int, p, true);
                }
                i = i + 1;
            },
            Comparison::Greater => {
                let ghost p = base@[j as int].path@;
                proof {
                    lemma_sorted_count(base@, j as int);
                    assert forall|t: int| 0 <= t < cur@.len() implies (#[trigger] cur@[t]).path@ != p by {
                        if t < i {
                            let k = choose|k: int| 0 <= k < paths@.len() && (#[trigger] paths@[k]).path@
                                == cur@[t].path@;
                            assert(bytes_lt(str_bytes(paths@[k].path@), str_bytes(base@[j as int].path@)));
                            if cur@[t].path@ == p {
                                lemma_bytes_lt_irreflexive(str_bytes(p));
                            }
                        } else if i < cur@.len() {
                            if t > i {
                                assert(bytes_lt(str_bytes(cur@[i as int].path@), str_bytes(cur@[t].path@)));
                            }
                            if cur@[t].path@ == p {
                                if t > i {
                                    lemma_bytes_lt_transitive(
                                        str_bytes(p),
                                        str_bytes(cur@[i as int].path@),
                                        str_bytes(p),
                                    );
                                } else {
                                    lemma_bytes_lt_asymmetric(str_bytes(p), str_bytes(p));
                                }
                                lemma_bytes_lt_irreflexive(str_bytes(p));
                            }
                        }
                    }
                    lemma_count_absent(cur@, p);
                }
                push_path_debt(&mut paths, &mut summary, &base[j].path, 0, base[j].count);
                proof {
                    assert(paths@.drop_last() =~= before);
                    lemma_after_push(before, paths@, cur@, base@, i as int, j as int, p, false);
                }
                j = j + 1;
            },
            Comparison::Equal => {
                let ghost p = cur@[i as int].path@;
                proof {
                    lemma_sorted_count(cur@, i as int);
                    lemma_sorted_count(base@, j as int);
                    assert(str_bytes(cur@[i as int].path@) == str_bytes(base@[j as int].path@));
                    assert(base@[j as int].path@ == p) by {
                        vstd::utf8::encode_utf8_decode_utf8(base@[j as int].path@);
                        vstd::utf8::encode_utf8_decode_utf8(p);
                    }
                }
                push_path_debt(&mut paths, &mut summary, &cur[i].path, cur[i].count, base[j].count);
                proof {
                    assert(paths@.drop_last() =~= before);
                    lemma_after_push_both(before, paths@, cur@, base@, i as int, j as int, p);
                }
                i = i + 1;
                j = j + 1;
            },
        }
    }
    proof {
        let n = paths@.len();
        let m = cur@.len() + base@.len();
        assert(n * 4294967295 <= m * 4294967295) by (nonlinear_arith)
            requires
                n <= m,
        ;
    }
    BaselineStatusGroup { fingerprint, lines, paths, summary }
}

/// Emitting the debt of the next path of one side keeps the merge
/// invariants.
proof fn lemma_after_push(
    before: Seq<BaselineStatusPath>,
    paths: Seq<BaselineStatusPath>,
    cur: Seq<BaselinePathCount>,
    base: Seq<BaselinePathCount>,
    i: int,
    j: int,
    p: Seq<char>,
    from_current: bool,
)
    requires
        paths_sorted(cur),
        paths_sorted(base),
        0 <= i <= cur.len(),
        0 <= j <= base.len(),
        from_current ==> i < cur.len() && p == cur[i].path@ && (j < base.len() ==> bytes_lt(
            str_bytes(p),
            str_bytes(base[j].path@),
        )),
        !from_current ==> j < base.len() && p == base[j].path@ && (i < cur.len() ==> bytes_lt(
            str_bytes(p),
            str_bytes(cur[i].path@),
        )),
        paths.len() == before.len() + 1,
        paths.drop_last() == before,
        paths.last().path@ == p,
        status_paths_sorted(before),
        forall|k: int, t: int|
            0 <= k < before.len() && i <= t < cur.len() ==> bytes_lt(
                str_bytes((#[trigger] before[k]).path@),
                str_bytes((#[trigger] cur[t]).path@),
            ),
        forall|k: int, t: int|
            0 <= k < before.len() && j <= t < base.len() ==> bytes_lt(
                str_bytes((#[trigger] before[k]).path@),
                str_bytes((#[trigger] base[t]).path@),
            ),
    ensures
        status_paths_sorted(paths),
        from_current ==> forall|k: int, t: int|
            0 <= k < paths.len() && i + 1 <= t < cur.len() ==> bytes_lt(
                str_bytes((#[trigger] paths[k]).path@),
                str_bytes((#[trigger] cur[t]).path@),
            ),
        from_current ==> forall|k: int, t: int|
            0 <= k < paths.len() && j <= t < base.len() ==> bytes_lt(
                str_bytes((#[trigger] paths[k]).path@),
                str_bytes((#[trigger] base[t]).path@),
            ),
        !from_current ==> forall|k: int, t: int|
            0 <= k < paths.len() && i <= t < cur.len() ==> bytes_lt(
                str_bytes((#[trigger] paths[k]).path@),
                str_bytes((#[trigger] cur[t]).path@),
            ),
        !from_current ==> forall|k: int, t: int|
            0 <= k < paths.len() && j + 1 <= t < base.len() ==> bytes_lt(
                str_bytes((#[trigger] paths[k]).path@),
                str_bytes((#[trigger] base[t]).path@),
            ),
{
    let n = before.len() as int;
    assert forall|k: int| 0 <= k < n implies #[trigger] paths[k] == before[k] by {
        assert(paths.drop_last()[k] == paths[k]);
    }
    assert forall|a: int, b: int| 0 <= a < b < paths.len() implies bytes_lt(
        str_bytes((#[trigger] paths[a]).path@),
        str_bytes((#[trigger] paths[b]).path@),
    ) by {
        if b == n {
            if from_current {
                assert(bytes_lt(str_bytes(before[a].path@), str_bytes(cur[i].path@)));
            } else {
                assert(bytes_lt(str_bytes(before[a].path@), str_bytes(base[j].path@)));
            }
        } else {
            assert(bytes_lt(str_bytes(before[a].path@), str_bytes(before[b].path@)));
        }
    }
    if from_current {
        assert forall|k: int, t: int| 0 <= k < paths.len() && i + 1 <= t < cur.len() implies bytes_lt(
            str_bytes((#[trigger] paths[k]).path@),
            str_bytes((#[trigger] cur[t]).path@),
        ) by {
            if k == n {
                assert(bytes_lt(str_bytes(cur[i].path@), str_bytes(cur[t].path@)));
            } else {
                assert(bytes_lt(str_bytes(before[k].path@), str_bytes(cur[t].path@)));
            }
        }
        assert forall|k: int, t: int| 0 <= k < paths.len() && j <= t < base.len() implies bytes_lt(
            str_bytes((#[trigger] paths[k]).path@),
            str_bytes((#[trigger] base[t]).path@),
        ) by {
            if k == n {
                if t > j {
                    assert(bytes_lt(str_bytes(base[j].path@), str_bytes(base[t].path@)));
                    lemma_bytes_lt_transitive(str_bytes(p), str_bytes(base[j].path@), str_bytes(base[t].path@));
                }
            } else {
                assert(bytes_lt(str_bytes(before[k].path@), str_bytes(base[t].path@)));
            }
        }
    } else {
        assert forall|k: int, t: int| 0 <= k < paths.len() && j + 1 <= t < base.len() implies bytes_lt(
            str_bytes((#[trigger] paths[k]).path@),
            str_bytes((#[trigger] base[t]).path@),
        ) by {
            if k == n {
                assert(bytes_lt(str_bytes(base[j].path@), str_bytes(base[t].path@)));
            } else {
                assert(bytes_lt(str_bytes(before[k].path@), str_bytes(base[t].path@)));
            }
        }
        assert forall|k: int, t: int| 0 <= k < paths.len() && i <= t < cur.len() implies bytes_lt(
            str_bytes((#[trigger] paths[k]).path@),
            str_bytes((#[trigger] cur[t]).path@),
        ) by {
            if k == n {
                if t > i {
                    assert(bytes_lt(str_bytes(cur[i].path@), str_bytes(cur[t].path@)));
                    lemma_bytes_lt_transitive(str_bytes(p), str_bytes(cur[i].path@), str_bytes(cur[t].path@));
                }
            } else {
                assert(bytes_lt(str_bytes(before[k].path@), str_bytes(cur[t].path@)));
            }
        }
    }
}

/// Emitting the debt of a path that both sides name keeps the merge
/// invariants.
proof fn lemma_after_push_both(
    before: Seq<BaselineStatusPath>,
    paths: Seq<BaselineStatusPath>,
    cur: Seq<BaselinePathCount>,
    base: Seq<BaselinePathCount>,
    i: int,
    j: int,
    p: Seq<char>,
)
    requires
        paths_sorted(cur),
        paths_sorted(base),
        0 <= i < cur.len(),
        0 <= j < base.len(),
        p == cur[i].path@,
        p == base[j].path@,
        paths.len() == before.len() + 1,
        paths.drop_last() == before,
        paths.last().path@ == p,
        status_paths_sorted(before),
        forall|k: int, t: int|
            0 <= k < before.len() && i <= t < cur.len() ==> bytes_lt(
                str_bytes((#[trigger] before[k]).path@),
                str_bytes((#[trigger] cur[t]).path@),
            ),
        forall|k: int, t: int|
            0 <= k < before.len() && j <= t < base.len() ==> bytes_lt(
                str_bytes((#[trigger] before[k]).path@),
                str_bytes((#[trigger] base[t]).path@),
            ),
    ensures
        status_paths_sorted(paths),
        forall|k: int, t: int|
            0 <= k < paths.len() && i + 1 <= t < cur.len() ==> bytes_lt(
                str_bytes((#[trigger] paths[k]).path@),
                str_bytes((#[trigger] cur[t]).path@),
            ),
        forall|k: int, t: int|
            0 <= k < paths.len() && j + 1 <= t < base.len() ==> bytes_lt(
                str_bytes((#[trigger] paths[k]).path@),
                str_bytes((#[trigger] base[t]).path@),
            ),
{
    lemma_after_push(before, paths, cur, base, i, j + 1, p, true);
    assert forall|k: int, t: int| 0 <= k < paths.len() && j + 1 <= t < base.len() implies bytes_lt(
        str_bytes((#[trigger] paths[k]).path@),
        str_bytes((#[trigger] base[t]).path@),
    ) by {
        let n = before.len() as int;
        if k == n {
            assert(bytes_lt(str_bytes(base[j].path@), str_bytes(base[t].path@)));
        } else {
            assert(paths.drop_last()[k] == paths[k]);
            assert(bytes_lt(str_bytes(before[k].path@), str_bytes(base[t].path@)));
        }
    }
}


/// The copies counted for `path`, found by a scan of `occurrences`.
fn lookup_count(occurrences: &Vec<BaselinePathCount>, path: &String) -> (count: u32)
    ensures
        count == count_at(occurrences@, path@),
{
    let mut count: u32 = 0;
    let mut i: usize = 0;
    while i < occurrences.len()
        invariant
            i <= occurrences@.len(),
            count == count_at(occurrences@.take(i as int), path@),
        decreases occurrences@.len() - i,
    {
        proof {
            assert(occurrences@.take(i + 1).drop_last() =~= occurrences@.take(i as int));
        }
        if occurrences[i].path == *path {
            count = occurrences[i].count;
        }
        i = i + 1;
    }
    proof {
        assert(occurrences@.take(i as int) =~= occurrences@);
    }
    count
}

/// The baseline entries that remain accepted: each path's count is cut to
/// the copies counted now, and paths left with none are dropped.
pub open spec fn pruned_entries(current: Seq<BaselinePathCount>, accepted: Seq<BaselinePathCount>) -> Seq<
    (Seq<char>, nat),
>
    decreases accepted.len(),
{
    if accepted.len() == 0 {
        seq![]
    } else {
        let entry = accepted.last();
        let count = min_nat(count_at(current, entry.path@), entry.count as nat);
        pruned_entries(current, accepted.drop_last()) + if count > 0 {
            seq![(entry.path@, count)]
        } else {
            seq![]
        }
    }
}

/// `g` holds, in order, the entries that pruning `current` against the
/// accepted group `accepted` keeps, under the accepted group's identity.
pub open spec fn prunes_to(g: BaselineGroup, current: Seq<BaselinePathCount>, accepted: BaselineGroup) -> bool {
    let entries = pruned_entries(current, accepted.occurrences@);
    &&& g.fingerprint@ == accepted.fingerprint@
    &&& g.lines == accepted.lines
    &&& g.occurrences@.len() == entries.len()
    &&& forall|k: int|
        0 <= k < entries.len() ==> (#[trigger] g.occurrences@[k]).path@ == entries[k].0 && g.occurrences@[k].count
            == entries[k].1
}

/// `g` is what pruning keeps of detected group `d` against the baseline
/// group accepted for its fingerprint.
#[verifier::opaque]
pub open spec fn pruned_for(
    corpus: Corpus,
    d: DuplicateGroup,
    root: Seq<char>,
    baseline: Seq<BaselineGroup>,
    g: BaselineGroup,
) -> bool {
    exists|bg: BaselineGroup, k: int|
        #![trigger records_group(corpus, d, root, bg), baseline[k]]
        records_group(corpus, d, root, bg) && 0 <= k < baseline.len() && baseline[k].fingerprint@ == bg.fingerprint@
            && baseline[k].occurrences@ == accepted_entries(baseline, bg.fingerprint@) && prunes_to(g, bg.occurrences@, baseline[k])
}

/// Pruning detected group `d` against the baseline keeps some entry.
#[verifier::opaque]
pub open spec fn keeps_debt(corpus: Corpus, d: DuplicateGroup, root: Seq<char>, baseline: Seq<BaselineGroup>) -> bool {
    forall|bg: BaselineGroup|
        #[trigger] records_group(corpus, d, root, bg) ==> pruned_entries(
            bg.occurrences@,
            accepted_entries(baseline, bg.fingerprint@),
        ).len() > 0
}

/// Some group of `pruned` is what pruning keeps of `d`.
pub open spec fn pruned_listed(
    corpus: Corpus,
    d: DuplicateGroup,
    root: Seq<char>,
    baseline: Seq<BaselineGroup>,
    pruned: Seq<BaselineGroup>,
) -> bool {
    exists|t: int| 0 <= t < pruned.len() && pruned_for(corpus, d, root, baseline, #[trigger] pruned[t])
}

/// `g` is what pruning keeps of some detected group.
pub open spec fn pruned_among(
    corpus: Corpus,
    groups: Seq<DuplicateGroup>,
    root: Seq<char>,
    baseline: Seq<BaselineGroup>,
    g: BaselineGroup,
) -> bool {
    exists|i: int| 0 <= i < groups.len() && pruned_for(corpus, #[trigger] groups[i], root, baseline, g)
}

proof fn lemma_pruned_copy(
    corpus: Corpus,
    groups: Seq<DuplicateGroup>,
    root: Seq<char>,
    baseline: Seq<BaselineGroup>,
    a: BaselineGroup,
    b: BaselineGroup,
)
    requires
        same_baseline_group(a, b),
    ensures
        pruned_among(corpus, groups, root, baseline, b) ==> pruned_among(corpus, groups, root, baseline, a),
        forall|i: int|
            0 <= i < groups.len() && pruned_for(corpus, #[trigger] groups[i], root, baseline, b) ==> pruned_for(
                corpus,
                groups[i],
                root,
                baseline,
                a,
            ),
{
    reveal(pruned_for);
    assert forall|i: int| 0 <= i < groups.len() && pruned_for(corpus, #[trigger] groups[i], root, baseline, b) implies pruned_for(
        corpus,
        groups[i],
        root,
        baseline,
        a,
    ) by {
        let (bg, k) = choose|bg: BaselineGroup, k: int|
            #![trigger records_group(corpus, groups[i], root, bg), baseline[k]]
            records_group(corpus, groups[i], root, bg) && 0 <= k < baseline.len() && baseline[k].fingerprint@
                == bg.fingerprint@ && baseline[k].occurrences@ == accepted_entries(baseline, bg.fingerprint@) && prunes_to(
                b,
                bg.occurrences@,
                baseline[k],
            );
        let entries = pruned_entries(bg.occurrences@, baseline[k].occurrences@);
        assert forall|x: int| 0 <= x < entries.len() implies (#[trigger] a.occurrences@[x]).path@ == entries[x].0
            && a.occurrences@[x].count == entries[x].1 by {
            assert(same_path_count(a.occurrences@[x], b.occurrences@[x]));
            assert(b.occurrences@[x].path@ == entries[x].0);
        }
        assert(prunes_to(a, bg.occurrences@, baseline[k]));
        assert(records_group(corpus, groups[i], root, bg));
        assert(baseline[k] == baseline[k]);
    }
    if pruned_among(corpus, groups, root, baseline, b) {
        let i = choose|i: int| 0 <= i < groups.len() && pruned_for(corpus, #[trigger] groups[i], root, baseline, b);
        assert(pruned_for(corpus, groups[i], root, baseline, a));
    }
}

/// Some group of `groups` holds the same values as `g`.
pub open spec fn group_copy_among(groups: Seq<BaselineGroup>, g: BaselineGroup) -> bool {
    exists|i: int| 0 <= i < groups.len() && same_baseline_group(g, #[trigger] groups[i])
}

proof fn lemma_same_baseline_symmetric(a: BaselineGroup, b: BaselineGroup)
    requires
        same_baseline_group(a, b),
    ensures
        same_baseline_group(b, a),
{
    assert forall|k: int| 0 <= k < b.occurrences@.len() implies same_path_count(#[trigger] b.occurrences@[k], a.occurrences@[k]) by {
        assert(same_path_count(a.occurrences@[k], b.occurrences@[k]));
    }
}

/// Pruning detected group `i` kept `after` in step with what is listed:
/// the groups listed so far stay, and group `i` is listed when it keeps debt.
proof fn lemma_prune_listed_step(
    corpus: Corpus,
    groups: Seq<DuplicateGroup>,
    root: Seq<char>,
    baseline: Seq<BaselineGroup>,
    i: int,
    before: Seq<BaselineGroup>,
    after: Seq<BaselineGroup>,
    pushed: bool,
)
    requires
        0 <= i < groups.len(),
        forall|t: int| 0 <= t < before.len() ==> pruned_among(corpus, groups, root, baseline, #[trigger] before[t]),
        forall|j: int| 0 <= j < i && keeps_debt(corpus, #[trigger] groups[j], root, baseline) ==> pruned_listed(corpus, groups[j], root, baseline, before),
        !pushed ==> after == before && !keeps_debt(corpus, groups[i], root, baseline),
        pushed ==> after.len() == before.len() + 1 && after.drop_last() == before && pruned_for(corpus, groups[i], root, baseline, after.last()),
    ensures
        forall|t: int| 0 <= t < after.len() ==> pruned_among(corpus, groups, root, baseline, #[trigger] after[t]),
        forall|j: int| 0 <= j < i + 1 && keeps_debt(corpus, #[trigger] groups[j], root, baseline) ==> pruned_listed(corpus, groups[j], root, baseline, after),
{
    if pushed {
        let n = before.len() as int;
        assert forall|t: int| 0 <= t < after.len() implies pruned_among(corpus, groups, root, baseline, #[trigger] after[t]) by {
            if t < n {
                assert(after[t] == before[t]);
            } else {
                assert(pruned_for(corpus, groups[i], root, baseline, after[t]));
            }
        }
        assert forall|j: int| 0 <= j < i + 1 && keeps_debt(corpus, #[trigger] groups[j], root, baseline) implies pruned_listed(corpus, groups[j], root, baseline, after) by {
            if j < i {
                assert(pruned_listed(corpus, groups[j], root, baseline, before));
                let t = choose|t: int| 0 <= t < before.len() && pruned_for(corpus, groups[j], root, baseline, #[trigger] before[t]);
                assert(after[t] == before[t]);
            } else {
                assert(pruned_for(corpus, groups[j], root, baseline, after[n]));
            }
        }
    }
}

/// Reordering the pruned groups keeps what they account for.
proof fn lemma_pruned_reordered(
    corpus: Corpus,
    groups: Seq<DuplicateGroup>,
    root: Seq<char>,
    baseline: Seq<BaselineGroup>,
    unsorted: Seq<BaselineGroup>,
    sorted: Seq<BaselineGroup>,
)
    requires
        forall|t: int| 0 <= t < sorted.len() ==> group_copy_among(unsorted, #[trigger] sorted[t]),
        forall|i: int| 0 <= i < unsorted.len() ==> group_copy_among(sorted, #[trigger] unsorted[i]),
        forall|t: int| 0 <= t < unsorted.len() ==> pruned_among(corpus, groups, root, baseline, #[trigger] unsorted[t]),
        forall|j: int| 0 <= j < groups.len() && keeps_debt(corpus, #[trigger] groups[j], root, baseline) ==> pruned_listed(corpus, groups[j], root, baseline, unsorted),
    ensures
        forall|t: int| 0 <= t < sorted.len() ==> pruned_among(corpus, groups, root, baseline, #[trigger] sorted[t]),
        forall|j: int| 0 <= j < groups.len() && keeps_debt(corpus, #[trigger] groups[j], root, baseline) ==> pruned_listed(corpus, groups[j], root, baseline, sorted),
{
    assert forall|t: int| 0 <= t < sorted.len() implies pruned_among(corpus, groups, root, baseline, #[trigger] sorted[t]) by {
        assert(group_copy_among(unsorted, sorted[t]));
        let u = choose|u: int| 0 <= u < unsorted.len() && same_baseline_group(sorted[t], #[trigger] unsorted[u]);
        assert(pruned_among(corpus, groups, root, baseline, unsorted[u]));
        lemma_pruned_copy(corpus, groups, root, baseline, sorted[t], unsorted[u]);
    }
    assert forall|j: int| 0 <= j < groups.len() && keeps_debt(corpus, #[trigger] groups[j], root, baseline) implies pruned_listed(corpus, groups[j], root, baseline, sorted) by {
        assert(pruned_listed(corpus, groups[j], root, baseline, unsorted));
        let u = choose|u: int| 0 <= u < unsorted.len() && pruned_for(corpus, groups[j], root, baseline, #[trigger] unsorted[u]);
        assert(group_copy_among(sorted, unsorted[u]));
        let t = choose|t: int| 0 <= t < sorted.len() && same_baseline_group(unsorted[u], #[trigger] sorted[t]);
        lemma_same_baseline_symmetric(unsorted[u], sorted[t]);
        lemma_pruned_copy(corpus, groups, root, baseline, sorted[t], unsorted[u]);
        assert(pruned_for(corpus, groups[j], root, baseline, sorted[t]));
    }
}

/// The accepted intersection of current and baseline debt for one group,
/// if any is left.
pub fn prune_group(current: &BaselineGroup, baseline: &BaselineGroup) -> (pruned: Option<BaselineGroup>)
    ensures
        pruned is Some <==> pruned_entries(current.occurrences@, baseline.occurrences@).len() > 0,
        pruned matches Some(g) ==> prunes_to(g, current.occurrences@, *baseline),
{
    let ghost cur = current.occurrences@;
    let ghost acc = baseline.occurrences@;
    let mut occurrences: Vec<BaselinePathCount> = Vec::new();
    let mut i: usize = 0;
    while i < baseline.occurrences.len()
        invariant
            cur == current.occurrences@,
            acc == baseline.occurrences@,
            i <= acc.len(),
            occurrences@.len() == pruned_entries(cur, acc.take(i as int)).len(),
            forall|k: int|
                0 <= k < occurrences@.len() ==> (#[trigger] occurrences@[k]).path@ == pruned_entries(
                    cur,
                    acc.take(i as int),
                )[k].0 && occurrences@[k].count == pruned_entries(cur, acc.take(i as int))[k].1,
        decreases acc.len() - i,
    {
        let entry = &baseline.occurrences[i];
        let now = lookup_count(&current.occurrences, &entry.path);
        let count = if now <= entry.count {
            now
        } else {
            entry.count
        };
        proof {
            assert(acc.take(i + 1).drop_last() =~= acc.take(i as int));
            assert(acc.take(i + 1).last() == acc[i as int]);
        }
        if count > 0 {
            occurrences.push(BaselinePathCount { path: entry.path.clone(), count });
        }
        i = i + 1;
    }
    proof {
        assert(acc.take(i as int) =~= acc);
    }
    if occurrences.len() == 0 {
        None
    } else {
        Some(
            BaselineGroup {
                fingerprint: baseline.fingerprint.clone(),
                lines: baseline.lines,
                occurrences,
            },
        )
    }
}

// ----------------------------------------------------------------------
// Comparison with a baseline.
/// Current debt against a baseline: the groups that stay reported, the
/// debt by state, and the baseline cut down to the accepted intersection.
#[derive(Debug, Clone)]
pub struct BaselineComparison {
    pub active_groups: Vec<DuplicateGroup>,
    pub status: BaselineStatus,
    pub pruned: Baseline,
}

/// The entries of the last baseline group with fingerprint `fp`, empty
/// when none has it.
pub open spec fn accepted_entries(groups: Seq<BaselineGroup>, fp: Seq<char>) -> Seq<BaselinePathCount>
    decreases groups.len(),
{
    if groups.len() == 0 {
        seq![]
    } else if groups.last().fingerprint@ == fp {
        groups.last().occurrences@
    } else {
        accepted_entries(groups.drop_last(), fp)
    }
}

/// Some copies of `g` in some path are not accepted by the baseline.
pub open spec fn group_active(corpus: Corpus, g: DuplicateGroup, root: Seq<char>, baseline: Seq<BaselineGroup>) -> bool {
    exists|p: Seq<char>|
        #[trigger] count_in(occurrence_paths(corpus, g, root), p) > count_at(
            accepted_entries(baseline, group_fingerprint_text(corpus, g)),
            p,
        )
}

/// The groups of `groups` that stay active, in order.
pub open spec fn active_filter(corpus: Corpus, groups: Seq<DuplicateGroup>, root: Seq<char>, baseline: Seq<BaselineGroup>) -> Seq<DuplicateGroup>
    decreases groups.len(),
{
    if groups.len() == 0 {
        seq![]
    } else {
        active_filter(corpus, groups.drop_last(), root, baseline) + if group_active(corpus, groups.last(), root, baseline) {
            seq![groups.last()]
        } else {
            seq![]
        }
    }
}

/// Index of the last baseline group with `fingerprint`, if any.
fn find_accepted(groups: &Vec<BaselineGroup>, fingerprint: &String) -> (found: Option<usize>)
    ensures
        match found {
            Some(k) => k < groups@.len() && groups@[k as int].fingerprint@ == fingerprint@ && accepted_entries(
                groups@,
                fingerprint@,
            ) == groups@[k as int].occurrences@,
            None => accepted_entries(groups@, fingerprint@) == Seq::<BaselinePathCount>::empty() && forall|k: int|
                0 <= k < groups@.len() ==> (#[trigger] groups@[k]).fingerprint@ != fingerprint@,
        },
{
    let mut found: Option<usize> = None;
    let mut i: usize = 0;
    while i < groups.len()
        invariant
            i <= groups@.len(),
            match found {
                Some(k) => k < i && groups@[k as int].fingerprint@ == fingerprint@ && accepted_entries(
                    groups@.take(i as int),
                    fingerprint@,
                ) == groups@[k as int].occurrences@,
                None => accepted_entries(groups@.take(i as int), fingerprint@) == Seq::<BaselinePathCount>::empty()
                    && forall|k: int| 0 <= k < i ==> (#[trigger] groups@[k]).fingerprint@ != fingerprint@,
            },
        decreases groups@.len() - i,
    {
        proof {
            assert(groups@.take(i + 1).drop_last() =~= groups@.take(i as int));
        }
        if groups[i].fingerprint == *fingerprint {
            found = Some(i);
        }
        i = i + 1;
    }
    proof {
        assert(groups@.take(i as int) =~= groups@);
    }
    found
}

/// For path-sorted entries, the count at a path is the recorded count.
proof fn lemma_count_at_entry_count(occ: Seq<BaselinePathCount>, p: Seq<char>)
    requires
        counts_sorted(occ),
    ensures
        count_at(occ, p) == entry_count(occ, p),
    decreases occ.len(),
{
    if occ.len() > 0 {
        let rest = occ.drop_last();
        assert(counts_sorted(rest)) by {
            assert forall|a: int, b: int| 0 <= a < b < rest.len() implies bytes_lt(
                text_bytes((#[trigger] rest[a]).path@),
                text_bytes((#[trigger] rest[b]).path@),
            ) by {
                assert(rest[a] == occ[a] && rest[b] == occ[b]);
            }
        }
        lemma_count_at_entry_count(rest, p);
        if occ.last().path@ == p {
            lemma_sorted_unique(occ, occ.len() - 1);
            assert forall|t: int| 0 <= t < rest.len() implies (#[trigger] rest[t]).path@ != p by {
                assert(rest[t] == occ[t]);
            }
            lemma_entry_count_absent(rest, p);
        }
    }
}

proof fn lemma_sum_active_positive(paths: Seq<BaselineStatusPath>, k: int)
    requires
        0 <= k < paths.len(),
    ensures
        sum_active(paths) >= paths[k].active,
    decreases paths.len(),
{
    if k < paths.len() - 1 {
        lemma_sum_active_positive(paths.drop_last(), k);
    }
    lemma_sum_active_nonneg(paths.drop_last());
}

proof fn lemma_sum_active_nonneg(paths: Seq<BaselineStatusPath>)
    ensures
        sum_active(paths) >= 0,
    decreases paths.len(),
{
    if paths.len() > 0 {
        lemma_sum_active_nonneg(paths.drop_last());
    }
}

proof fn lemma_sum_active_zero(paths: Seq<BaselineStatusPath>)
    requires
        forall|k: int| 0 <= k < paths.len() ==> (#[trigger] paths[k]).active == 0,
    ensures
        sum_active(paths) == 0,
    decreases paths.len(),
{
    if paths.len() > 0 {
        lemma_sum_active_zero(paths.drop_last());
    }
}

/// A recorded count above zero names an entry.
proof fn lemma_entry_count_names(occ: Seq<BaselinePathCount>, p: Seq<char>)
    requires
        entry_count(occ, p) > 0,
    ensures
        exists|i: int| 0 <= i < occ.len() && (#[trigger] occ[i]).path@ == p,
    decreases occ.len(),
{
    if occ.len() > 0 && occ.last().path@ != p {
        lemma_entry_count_names(occ.drop_last(), p);
        let i = choose|i: int| 0 <= i < occ.drop_last().len() && (#[trigger] occ.drop_last()[i]).path@ == p;
        assert(occ[i] == occ.drop_last()[i]);
    } else if occ.len() > 0 {
        assert(occ[occ.len() - 1].path@ == p);
    }
}

/// The status of the current record of `g` against its accepted entries
/// shows active debt exactly when `g` is active.
proof fn lemma_status_active(
    corpus: Corpus,
    g: DuplicateGroup,
    root: Seq<char>,
    record: BaselineGroup,
    accepted: Seq<BaselinePathCount>,
    status: BaselineStatusGroup,
    baseline: Seq<BaselineGroup>,
)
    requires
        records_group(corpus, g, root, record),
        accepted == accepted_entries(baseline, group_fingerprint_text(corpus, g)),
        counts_sorted(accepted),
        describes_debt(status, record.occurrences@, accepted),
    ensures
        (status.summary.active > 0) == group_active(corpus, g, root, baseline),
{
    reveal(describes_debt);
    if group_active(corpus, g, root, baseline) {
        let p = choose|p: Seq<char>|
            #[trigger] count_in(occurrence_paths(corpus, g, root), p) > count_at(accepted, p);
        assert(entry_count(record.occurrences@, p) == count_in(occurrence_paths(corpus, g, root), p));
        lemma_count_at_entry_count(record.occurrences@, p);
        lemma_entry_count_names(record.occurrences@, p);
        let i = choose|i: int| 0 <= i < record.occurrences@.len() && (#[trigger] record.occurrences@[i]).path@ == p;
        assert(status_names_path(status.paths@, record.occurrences@[i].path@));
        let k = choose|k: int| 0 <= k < status.paths@.len() && (#[trigger] status.paths@[k]).path@ == p;
        lemma_sum_active_positive(status.paths@, k);
    } else {
        assert forall|k: int| 0 <= k < status.paths@.len() implies (#[trigger] status.paths@[k]).active == 0 by {
            let p = status.paths@[k].path@;
            lemma_count_at_entry_count(record.occurrences@, p);
            assert(entry_count(record.occurrences@, p) == count_in(occurrence_paths(corpus, g, root), p));
            assert(!(count_in(occurrence_paths(corpus, g, root), p) > count_at(accepted, p)));
        }
        lemma_sum_active_zero(status.paths@);
    }
}


/// The summaries of `groups` added up, if no total overflows.
fn checked_totals(groups: &Vec<BaselineStatusGroup>) -> (fits: bool)
    ensures
        fits == (total_accepted(groups@) <= u64::MAX && total_active(groups@) <= u64::MAX && total_stale(
            groups@,
        ) <= u64::MAX),
{
    let mut accepted: u64 = 0;
    let mut active: u64 = 0;
    let mut stale: u64 = 0;
    let mut i: usize = 0;
    while i < groups.len()
        invariant
            i <= groups@.len(),
            accepted == total_accepted(groups@.take(i as int)),
            active == total_active(groups@.take(i as int)),
            stale == total_stale(groups@.take(i as int)),
        decreases groups@.len() - i,
    {
        proof {
            assert(groups@.take(i + 1).drop_last() =~= groups@.take(i as int));
        }
        let summary = groups[i].summary;
        if summary.accepted > u64::MAX - accepted || summary.active > u64::MAX - active || summary.stale
            > u64::MAX - stale {
            proof {
                lemma_totals_prefix(groups@, i + 1);
            }
            return false;
        }
        accepted = accepted + summary.accepted;
        active = active + summary.active;
        stale = stale + summary.stale;
        i = i + 1;
    }
    proof {
        assert(groups@.take(i as int) =~= groups@);
    }
    true
}

/// `groups` ordered by fingerprint, equal fingerprints in input order.
fn sort_status_groups(groups: &Vec<BaselineStatusGroup>) -> (sorted: Vec<BaselineStatusGroup>)
    ensures
        sorted@.len() == groups@.len(),
        forall|a: int, b: int|
            0 <= a < b < sorted@.len() ==> bytes_le(
                text_bytes((#[trigger] sorted@[a]).fingerprint@),
                text_bytes((#[trigger] sorted@[b]).fingerprint@),
            ),
        forall|t: int| 0 <= t < sorted@.len() ==> summary_among(groups@, #[trigger] sorted@[t]),
        forall|t: int| 0 <= t < sorted@.len() ==> copy_among(groups@, #[trigger] sorted@[t]),
        forall|i: int| 0 <= i < groups@.len() ==> copy_among(sorted@, #[trigger] groups@[i]),
{
    let mut keys: Vec<String> = Vec::new();
    let mut i: usize = 0;
    while i < groups.len()
        invariant
            i <= groups@.len(),
            keys@.len() == i,
            forall|k: int| 0 <= k < i ==> #[trigger] keys@[k]@ == groups@[k].fingerprint@,
        decreases groups@.len() - i,
    {
        keys.push(groups[i].fingerprint.clone());
        i = i + 1;
    }
    let order = sort_indices_by_text(&keys);
    let mut sorted: Vec<BaselineStatusGroup> = Vec::new();
    let mut r: usize = 0;
    while r < order.len()
        invariant
            r <= order@.len(),
            order@.len() == groups@.len(),
            keys@.len() == groups@.len(),
            forall|k: int| 0 <= k < keys@.len() ==> #[trigger] keys@[k]@ == groups@[k].fingerprint@,
            forall|t: int| 0 <= t < order@.len() ==> #[trigger] order@[t] < groups@.len(),
            forall|a: int, b: int|
                0 <= a < b < order@.len() ==> bytes_le(
                    text_bytes(keys@[#[trigger] order@[a] as int]@),
                    text_bytes(keys@[#[trigger] order@[b] as int]@),
                ),
            sorted@.len() == r,
            forall|t: int| 0 <= t < r ==> (#[trigger] sorted@[t]).fingerprint@ == groups@[order@[t] as int].fingerprint@,
            forall|t: int| 0 <= t < r ==> (#[trigger] sorted@[t]).summary == groups@[order@[t] as int].summary,
            forall|t: int| 0 <= t < r ==> same_status_group(#[trigger] sorted@[t], groups@[order@[t] as int]),
        decreases order@.len() - r,
    {
        let ghost before = sorted@;
        sorted.push(groups[order[r]].clone());
        proof {
            assert forall|t: int| 0 <= t < r + 1 implies same_status_group(#[trigger] sorted@[t], groups@[order@[t] as int]) by {
                if t < r {
                    assert(sorted@[t] == before[t]);
                }
            }
        }
        r = r + 1;
    }
    proof {
        assert forall|t: int| 0 <= t < sorted@.len() implies copy_among(groups@, #[trigger] sorted@[t]) by {
            let i = order@[t] as int;
            assert(same_status_group(sorted@[t], groups@[i]));
        }
        assert forall|i: int| 0 <= i < groups@.len() implies copy_among(sorted@, #[trigger] groups@[i]) by {
            let p = i as usize;
            assert(order@.contains(p));
            let t = choose|t: int| 0 <= t < order@.len() && order@[t] == p;
            assert(same_status_group(sorted@[t], groups@[i]));
            lemma_same_status_symmetric(sorted@[t], groups@[i]);
        }
        assert forall|t: int| 0 <= t < sorted@.len() implies summary_among(groups@, #[trigger] sorted@[t]) by {
            let i = order@[t] as int;
            assert(groups@[i].summary == sorted@[t].summary);
        }
    }
    sorted
}

/// `groups` ordered by fingerprint, equal fingerprints in input order.
fn sort_by_fingerprint(groups: &Vec<BaselineGroup>) -> (sorted: Vec<BaselineGroup>)
    ensures
        sorted@.len() == groups@.len(),
        forall|a: int, b: int|
            0 <= a < b < sorted@.len() ==> bytes_le(
                text_bytes((#[trigger] sorted@[a]).fingerprint@),
                text_bytes((#[trigger] sorted@[b]).fingerprint@),
            ),
        forall|t: int| 0 <= t < sorted@.len() ==> group_copy_among(groups@, #[trigger] sorted@[t]),
        forall|i: int| 0 <= i < groups@.len() ==> group_copy_among(sorted@, #[trigger] groups@[i]),
{
    let mut keys: Vec<String> = Vec::new();
    let mut i: usize = 0;
    while i < groups.len()
        invariant
            i <= groups@.len(),
            keys@.len() == i,
            forall|k: int| 0 <= k < i ==> #[trigger] keys@[k]@ == groups@[k].fingerprint@,
        decreases groups@.len() - i,
    {
        keys.push(groups[i].fingerprint.clone());
        i = i + 1;
    }
    let order = sort_indices_by_text(&keys);
    let mut sorted: Vec<BaselineGroup> = Vec::new();
    let mut r: usize = 0;
    while r < order.len()
        invariant
            r <= order@.len(),
            order@.len() == groups@.len(),
            keys@.len() == groups@.len(),
            forall|k: int| 0 <= k < keys@.len() ==> #[trigger] keys@[k]@ == groups@[k].fingerprint@,
            forall|t: int| 0 <= t < order@.len() ==> #[trigger] order@[t] < groups@.len(),
            forall|a: int, b: int|
                0 <= a < b < order@.len() ==> bytes_le(
                    text_bytes(keys@[#[trigger] order@[a] as int]@),
                    text_bytes(keys@[#[trigger] order@[b] as int]@),
                ),
            sorted@.len() == r,
            forall|t: int| 0 <= t < r ==> (#[trigger] sorted@[t]).fingerprint@ == groups@[order@[t] as int].fingerprint@,
            forall|t: int| 0 <= t < r ==> same_baseline_group(#[trigger] sorted@[t], groups@[order@[t] as int]),
        decreases order@.len() - r,
    {
        let ghost before = sorted@;
        sorted.push(groups[order[r]].clone());
        proof {
            assert forall|t: int| 0 <= t < r + 1 implies same_baseline_group(#[trigger] sorted@[t], groups@[order@[t] as int]) by {
                if t < r {
                    assert(sorted@[t] == before[t]);
                }
            }
        }
        r = r + 1;
    }
    proof {
        assert forall|t: int| 0 <= t < sorted@.len() implies group_copy_among(groups@, #[trigger] sorted@[t]) by {
            assert(same_baseline_group(sorted@[t], groups@[order@[t] as int]));
        }
        assert forall|i: int| 0 <= i < groups@.len() implies group_copy_among(sorted@, #[trigger] groups@[i]) by {
            let p = i as usize;
            assert(order@.contains(p));
            let t = choose|t: int| 0 <= t < order@.len() && order@[t] == p;
            lemma_same_baseline_symmetric(sorted@[t], groups@[i]);
        }
    }
    sorted
}

/// True when some string of `names` equals `name`.
fn contains_name(names: &Vec<String>, name: &String) -> (found: bool)
    ensures
        found == exists|k: int| 0 <= k < names@.len() && (#[trigger] names@[k])@ == name@,
{
    let mut i: usize = 0;
    while i < names.len()
        invariant
            i <= names@.len(),
            forall|k: int| 0 <= k < i ==> (#[trigger] names@[k])@ != name@,
        decreases names@.len() - i,
    {
        if names[i] == *name {
            return true;
        }
        i = i + 1;
    }
    false
}

/// Groups holding the same values are recorded, fingerprinted and
/// compared alike.
proof fn lemma_same_group_facts(corpus: Corpus, a: DuplicateGroup, b: DuplicateGroup, root: Seq<char>)
    requires
        same_group(a, b),
    ensures
        fingerprint_ok(corpus, a) == fingerprint_ok(corpus, b),
        counts_ok(corpus, a, root) == counts_ok(corpus, b, root),
        group_fingerprint_text(corpus, a) == group_fingerprint_text(corpus, b),
        occurrence_paths(corpus, a, root) == occurrence_paths(corpus, b, root),
        forall|r: BaselineGroup| records_group(corpus, a, root, r) == records_group(corpus, b, root, r),
{
    assert(occurrence_paths(corpus, a, root) =~= occurrence_paths(corpus, b, root));
    assert(occurrences_recordable(corpus, a, root) == occurrences_recordable(corpus, b, root)) by {
        assert forall|i: int| 0 <= i < a.occurrences@.len() implies occurrence_valid(corpus, a, #[trigger] a.occurrences@[i])
            == occurrence_valid(corpus, b, b.occurrences@[i]) by {}
    }
}

/// Occurrences over all groups.
pub open spec fn group_occurrence_total(groups: Seq<DuplicateGroup>) -> nat
    decreases groups.len(),
{
    if groups.len() == 0 {
        0
    } else {
        group_occurrence_total(groups.drop_last()) + groups.last().occurrences@.len()
    }
}

/// Path entries over all baseline groups.
pub open spec fn entry_total(groups: Seq<BaselineGroup>) -> nat
    decreases groups.len(),
{
    if groups.len() == 0 {
        0
    } else {
        entry_total(groups.drop_last()) + groups.last().occurrences@.len()
    }
}

/// The debt counts of comparing `groups` with `baseline` stay far below
/// the counters' limits: the groups on both sides, times the occurrences
/// and path entries on both sides, fit in `u32`.
pub open spec fn debt_fits(groups: Seq<DuplicateGroup>, baseline: Seq<BaselineGroup>) -> bool {
    (groups.len() + baseline.len()) * (group_occurrence_total(groups) + entry_total(baseline)) <= u32::MAX
}

proof fn lemma_occurrences_within_total(groups: Seq<DuplicateGroup>, i: int)
    requires
        0 <= i < groups.len(),
    ensures
        groups[i].occurrences@.len() <= group_occurrence_total(groups),
    decreases groups.len(),
{
    if i < groups.len() - 1 {
        lemma_occurrences_within_total(groups.drop_last(), i);
        assert(groups.drop_last()[i] == groups[i]);
    }
}

proof fn lemma_entries_within_total(groups: Seq<BaselineGroup>, i: int)
    requires
        0 <= i < groups.len(),
    ensures
        groups[i].occurrences@.len() <= entry_total(groups),
    decreases groups.len(),
{
    if i < groups.len() - 1 {
        lemma_entries_within_total(groups.drop_last(), i);
        assert(groups.drop_last()[i] == groups[i]);
    }
}

proof fn lemma_scaled(a: int, b: int)
    requires
        0 <= a <= b,
    ensures
        a * 4294967295 <= b * 4294967295,
{
    assert(a * 4294967295 <= b * 4294967295) by (nonlinear_arith)
        requires
            0 <= a <= b,
    ;
}

/// Compares current duplicate debt with an already validated baseline.
///
/// The status of detected group `g`: its copies now, weighed path by path
/// against what the baseline accepts under its fingerprint.
#[verifier::opaque]
pub open spec fn current_debt_status(
    corpus: Corpus,
    g: DuplicateGroup,
    root: Seq<char>,
    baseline: Seq<BaselineGroup>,
    s: BaselineStatusGroup,
) -> bool {
    exists|bg: BaselineGroup|
        #[trigger] records_group(corpus, g, root, bg) && s.fingerprint@ == bg.fingerprint@ && s.lines == bg.lines
            && describes_debt(s, bg.occurrences@, accepted_entries(baseline, bg.fingerprint@))
}

/// No detected group has the fingerprint of baseline group `b`.
pub open spec fn unmatched(corpus: Corpus, groups: Seq<DuplicateGroup>, b: BaselineGroup) -> bool {
    forall|i: int| 0 <= i < groups.len() ==> group_fingerprint_text(corpus, #[trigger] groups[i]) != b.fingerprint@
}

/// The status of a baseline group: none of its copies is found now, all are stale.
pub open spec fn stale_debt_status(b: BaselineGroup, s: BaselineStatusGroup) -> bool {
    s.fingerprint@ == b.fingerprint@ && s.lines == b.lines && describes_debt(s, seq![], b.occurrences@)
}

/// `s` is the status of a detected group, or of a baseline group that no
/// detected group matches.
pub open spec fn status_accounted(
    corpus: Corpus,
    groups: Seq<DuplicateGroup>,
    root: Seq<char>,
    baseline: Seq<BaselineGroup>,
    s: BaselineStatusGroup,
) -> bool {
    ||| exists|i: int| 0 <= i < groups.len() && current_debt_status(corpus, #[trigger] groups[i], root, baseline, s)
    ||| exists|k: int|
        0 <= k < baseline.len() && unmatched(corpus, groups, #[trigger] baseline[k]) && stale_debt_status(baseline[k], s)
}

/// Some entry of `statuses` is the status of detected group `g`.
pub open spec fn current_listed(
    corpus: Corpus,
    g: DuplicateGroup,
    root: Seq<char>,
    baseline: Seq<BaselineGroup>,
    statuses: Seq<BaselineStatusGroup>,
) -> bool {
    exists|t: int| 0 <= t < statuses.len() && current_debt_status(corpus, g, root, baseline, #[trigger] statuses[t])
}

/// Some entry of `statuses` is the all-stale status of baseline group `b`.
pub open spec fn stale_listed(b: BaselineGroup, statuses: Seq<BaselineStatusGroup>) -> bool {
    exists|t: int| 0 <= t < statuses.len() && stale_debt_status(b, #[trigger] statuses[t])
}

proof fn lemma_status_copy(
    corpus: Corpus,
    groups: Seq<DuplicateGroup>,
    root: Seq<char>,
    baseline: Seq<BaselineGroup>,
    a: BaselineStatusGroup,
    b: BaselineStatusGroup,
)
    requires
        same_status_group(a, b),
    ensures
        status_accounted(corpus, groups, root, baseline, b) ==> status_accounted(corpus, groups, root, baseline, a),
        forall|i: int|
            0 <= i < groups.len() && current_debt_status(corpus, #[trigger] groups[i], root, baseline, b)
                ==> current_debt_status(corpus, groups[i], root, baseline, a),
        forall|k: int|
            0 <= k < baseline.len() && stale_debt_status(#[trigger] baseline[k], b) ==> stale_debt_status(baseline[k], a),
{
    reveal(current_debt_status);
    assert forall|i: int|
        0 <= i < groups.len() && current_debt_status(corpus, #[trigger] groups[i], root, baseline, b)
            implies current_debt_status(corpus, groups[i], root, baseline, a) by {
        let bg = choose|bg: BaselineGroup|
            #[trigger] records_group(corpus, groups[i], root, bg) && b.fingerprint@ == bg.fingerprint@ && b.lines == bg.lines
                && describes_debt(b, bg.occurrences@, accepted_entries(baseline, bg.fingerprint@));
        lemma_same_status_describes(a, b, bg.occurrences@, accepted_entries(baseline, bg.fingerprint@));
    }
    assert forall|k: int| 0 <= k < baseline.len() && stale_debt_status(#[trigger] baseline[k], b) implies stale_debt_status(
        baseline[k],
        a,
    ) by {
        lemma_same_status_describes(a, b, seq![], baseline[k].occurrences@);
    }
    if status_accounted(corpus, groups, root, baseline, b) {
        if exists|i: int| 0 <= i < groups.len() && current_debt_status(corpus, #[trigger] groups[i], root, baseline, b) {
            let i = choose|i: int| 0 <= i < groups.len() && current_debt_status(corpus, #[trigger] groups[i], root, baseline, b);
            assert(current_debt_status(corpus, groups[i], root, baseline, a));
        } else {
            let k = choose|k: int|
                0 <= k < baseline.len() && unmatched(corpus, groups, #[trigger] baseline[k]) && stale_debt_status(baseline[k], b);
            assert(stale_debt_status(baseline[k], a));
        }
    }
}

/// Statuses listed detected groups first, in order, then only statuses
/// that are accounted for, account for every group.
proof fn lemma_statuses_complete(
    corpus: Corpus,
    groups: Seq<DuplicateGroup>,
    root: Seq<char>,
    baseline: Seq<BaselineGroup>,
    statuses: Seq<BaselineStatusGroup>,
)
    requires
        groups.len() <= statuses.len(),
        forall|t: int| 0 <= t < groups.len() ==> current_debt_status(corpus, groups[t], root, baseline, #[trigger] statuses[t]),
        forall|t: int| groups.len() <= t < statuses.len() ==> status_accounted(corpus, groups, root, baseline, #[trigger] statuses[t]),
    ensures
        forall|t: int| 0 <= t < statuses.len() ==> status_accounted(corpus, groups, root, baseline, #[trigger] statuses[t]),
        forall|i: int| 0 <= i < groups.len() ==> current_listed(corpus, #[trigger] groups[i], root, baseline, statuses),
{
    assert forall|t: int| 0 <= t < statuses.len() implies status_accounted(corpus, groups, root, baseline, #[trigger] statuses[t]) by {
        if t < groups.len() {
            assert(current_debt_status(corpus, groups[t], root, baseline, statuses[t]));
        }
    }
    assert forall|i: int| 0 <= i < groups.len() implies current_listed(corpus, #[trigger] groups[i], root, baseline, statuses) by {
        assert(current_debt_status(corpus, groups[i], root, baseline, statuses[i]));
    }
}

/// Reordering the statuses keeps what they account for.
proof fn lemma_statuses_reordered(
    corpus: Corpus,
    groups: Seq<DuplicateGroup>,
    root: Seq<char>,
    baseline: Seq<BaselineGroup>,
    unsorted: Seq<BaselineStatusGroup>,
    sorted: Seq<BaselineStatusGroup>,
)
    requires
        forall|t: int| 0 <= t < sorted.len() ==> copy_among(unsorted, #[trigger] sorted[t]),
        forall|i: int| 0 <= i < unsorted.len() ==> copy_among(sorted, #[trigger] unsorted[i]),
        forall|t: int| 0 <= t < unsorted.len() ==> status_accounted(corpus, groups, root, baseline, #[trigger] unsorted[t]),
        forall|i: int| 0 <= i < groups.len() ==> current_listed(corpus, #[trigger] groups[i], root, baseline, unsorted),
        forall|k: int|
            0 <= k < baseline.len() && unmatched(corpus, groups, #[trigger] baseline[k]) ==> stale_listed(baseline[k], unsorted),
    ensures
        forall|t: int| 0 <= t < sorted.len() ==> status_accounted(corpus, groups, root, baseline, #[trigger] sorted[t]),
        forall|i: int| 0 <= i < groups.len() ==> current_listed(corpus, #[trigger] groups[i], root, baseline, sorted),
        forall|k: int|
            0 <= k < baseline.len() && unmatched(corpus, groups, #[trigger] baseline[k]) ==> stale_listed(baseline[k], sorted),
{
    assert forall|t: int| 0 <= t < sorted.len() implies status_accounted(corpus, groups, root, baseline, #[trigger] sorted[t]) by {
        assert(copy_among(unsorted, sorted[t]));
        let u = choose|u: int| 0 <= u < unsorted.len() && same_status_group(sorted[t], #[trigger] unsorted[u]);
        assert(status_accounted(corpus, groups, root, baseline, unsorted[u]));
        lemma_status_copy(corpus, groups, root, baseline, sorted[t], unsorted[u]);
    }
    assert forall|i: int| 0 <= i < groups.len() implies current_listed(corpus, #[trigger] groups[i], root, baseline, sorted) by {
        assert(current_listed(corpus, groups[i], root, baseline, unsorted));
        let u = choose|u: int| 0 <= u < unsorted.len() && current_debt_status(corpus, groups[i], root, baseline, #[trigger] unsorted[u]);
        assert(copy_among(sorted, unsorted[u]));
        let t = choose|t: int| 0 <= t < sorted.len() && same_status_group(unsorted[u], #[trigger] sorted[t]);
        lemma_same_status_symmetric(unsorted[u], sorted[t]);
        lemma_status_copy(corpus, groups, root, baseline, sorted[t], unsorted[u]);
        assert(current_debt_status(corpus, groups[i], root, baseline, sorted[t]));
    }
    assert forall|k: int|
        0 <= k < baseline.len() && unmatched(corpus, groups, #[trigger] baseline[k]) implies stale_listed(baseline[k], sorted) by {
        assert(stale_listed(baseline[k], unsorted));
        let u = choose|u: int| 0 <= u < unsorted.len() && stale_debt_status(baseline[k], #[trigger] unsorted[u]);
        assert(copy_among(sorted, unsorted[u]));
        let t = choose|t: int| 0 <= t < sorted.len() && same_status_group(unsorted[u], #[trigger] sorted[t]);
        lemma_same_status_symmetric(unsorted[u], sorted[t]);
        lemma_status_copy(corpus, groups, root, baseline, sorted[t], unsorted[u]);
        assert(stale_debt_status(baseline[k], sorted[t]));
    }
}

/// Each group's debt is split, path by path, into accepted, active and
/// stale copies. A group stays reported when any of its copies is not
/// accepted, so reports keep the complete group. The pruned baseline holds
/// only the accepted intersection of current and recorded debt, so pruning
/// never accepts new debt.
///
/// The status lists one entry for each detected group, weighed against the
/// baseline entries for its fingerprint, and one all-stale entry for each
/// baseline group that nothing detected matches.
#[verifier::spinoff_prover]
#[verifier::rlimit(100)]
pub fn compare_baseline(
    corpus: &Corpus,
    groups: Vec<DuplicateGroup>,
    baseline: &Baseline,
    normalization: NormalizationOptions,
    project_root: &str,
) -> (result: Result<BaselineComparison, BaselineError>)
    requires
        forall|k: int| 0 <= k < baseline.groups@.len() ==> counts_sorted((#[trigger] baseline.groups@[k]).occurrences@),
    ensures
        result matches Ok(c) ==> {
            let active = active_filter(*corpus, groups@, project_root@, baseline.groups@);
            &&& c.active_groups@.len() == active.len()
            &&& forall|k: int| 0 <= k < active.len() ==> same_group(#[trigger] c.active_groups@[k], active[k])
            &&& c.pruned.version == baseline.version
            &&& c.pruned.normalization == baseline.normalization
            &&& forall|a: int, b: int|
                0 <= a < b < c.status.groups@.len() ==> bytes_le(
                    text_bytes((#[trigger] c.status.groups@[a]).fingerprint@),
                    text_bytes((#[trigger] c.status.groups@[b]).fingerprint@),
                )
            &&& forall|a: int, b: int|
                0 <= a < b < c.pruned.groups@.len() ==> bytes_le(
                    text_bytes((#[trigger] c.pruned.groups@[a]).fingerprint@),
                    text_bytes((#[trigger] c.pruned.groups@[b]).fingerprint@),
                )
            &&& forall|t: int|
                0 <= t < c.status.groups@.len() ==> status_accounted(
                    *corpus,
                    groups@,
                    project_root@,
                    baseline.groups@,
                    #[trigger] c.status.groups@[t],
                )
            &&& forall|i: int|
                0 <= i < groups@.len() ==> current_listed(
                    *corpus,
                    #[trigger] groups@[i],
                    project_root@,
                    baseline.groups@,
                    c.status.groups@,
                )
            &&& forall|k: int|
                0 <= k < baseline.groups@.len() && unmatched(*corpus, groups@, #[trigger] baseline.groups@[k])
                    ==> stale_listed(baseline.groups@[k], c.status.groups@)
            &&& forall|t: int|
                0 <= t < c.pruned.groups@.len() ==> pruned_among(
                    *corpus,
                    groups@,
                    project_root@,
                    baseline.groups@,
                    #[trigger] c.pruned.groups@[t],
                )
            &&& forall|j: int|
                0 <= j < groups@.len() && keeps_debt(*corpus, #[trigger] groups@[j], project_root@, baseline.groups@)
                    ==> pruned_listed(*corpus, groups@[j], project_root@, baseline.groups@, c.pruned.groups@)
        },
        result is Err ==> (exists|i: int| 0 <= i < groups@.len() && !(fingerprint_ok(*corpus, #[trigger] groups@[i])
            && counts_ok(*corpus, groups@[i], project_root@))) || result->Err_0 is DebtCountOverflow,
        (forall|i: int|
            0 <= i < groups@.len() ==> fingerprint_ok(*corpus, #[trigger] groups@[i]) && counts_ok(
                *corpus,
                groups@[i],
                project_root@,
            )) && debt_fits(groups@, baseline.groups@) ==> result is Ok,
{
    let ghost baseline_groups = baseline.groups@;
    let ghost ready = (forall|i: int|
        0 <= i < groups@.len() ==> fingerprint_ok(*corpus, #[trigger] groups@[i]) && counts_ok(
            *corpus,
            groups@[i],
            project_root@,
        )) && debt_fits(groups@, baseline.groups@);
    let ghost total: int = (group_occurrence_total(groups@) + entry_total(baseline.groups@)) as int;
    let ghost bound: int = total * 4294967295;
    let ghost sides: int = (groups@.len() + baseline.groups@.len()) as int;
    let mut active_groups: Vec<DuplicateGroup> = Vec::new();
    let mut status_groups: Vec<BaselineStatusGroup> = Vec::new();
    let mut pruned_groups: Vec<BaselineGroup> = Vec::new();
    let mut current_fingerprints: Vec<String> = Vec::new();
    let mut i: usize = 0;
    while i < groups.len()
        invariant
            i <= groups@.len(),
            baseline_groups == baseline.groups@,
            forall|k: int| 0 <= k < baseline_groups.len() ==> counts_sorted((#[trigger] baseline_groups[k]).occurrences@),
            active_groups@.len() == active_filter(*corpus, groups@.take(i as int), project_root@, baseline_groups).len(),
            forall|k: int|
                0 <= k < active_groups@.len() ==> same_group(
                    #[trigger] active_groups@[k],
                    active_filter(*corpus, groups@.take(i as int), project_root@, baseline_groups)[k],
                ),
            ready == ((forall|i: int|
                0 <= i < groups@.len() ==> fingerprint_ok(*corpus, #[trigger] groups@[i]) && counts_ok(
                    *corpus,
                    groups@[i],
                    project_root@,
                )) && debt_fits(groups@, baseline.groups@)),
            total == group_occurrence_total(groups@) + entry_total(baseline.groups@),
            bound == total * 4294967295,
            sides == groups@.len() + baseline.groups@.len(),
            status_groups@.len() == i,
            ready ==> forall|t: int| 0 <= t < status_groups@.len() ==> summary_within(#[trigger] status_groups@[t], bound),
            current_fingerprints@.len() == i,
            forall|t: int| 0 <= t < i ==> (#[trigger] current_fingerprints@[t])@ == group_fingerprint_text(*corpus, groups@[t]),
            forall|t: int|
                0 <= t < i ==> current_debt_status(
                    *corpus,
                    groups@[t],
                    project_root@,
                    baseline_groups,
                    #[trigger] status_groups@[t],
                ),
            forall|t: int|
                0 <= t < pruned_groups@.len() ==> pruned_among(
                    *corpus,
                    groups@,
                    project_root@,
                    baseline.groups@,
                    #[trigger] pruned_groups@[t],
                ),
            forall|j: int|
                0 <= j < i && keeps_debt(*corpus, #[trigger] groups@[j], project_root@, baseline.groups@) ==> pruned_listed(
                    *corpus,
                    groups@[j],
                    project_root@,
                    baseline.groups@,
                    pruned_groups@,
                ),
        decreases groups@.len() - i,
    {
        let group = &groups[i];
        let single = vec![group.clone()];
        let current = match build_baseline(corpus, &single, normalization, project_root) {
            Ok(current) => current,
            Err(error) => {
                proof {
                    assert(same_group(single@[0], groups@[i as int]));
                    lemma_same_group_facts(*corpus, single@[0], groups@[i as int], project_root@);
                    if fingerprint_ok(*corpus, groups@[i as int]) && counts_ok(*corpus, groups@[i as int], project_root@) {
                        assert(single@.len() == 1);
                        assert(!repeats_group_fingerprint(*corpus, single@));
                    }
                }
                return Err(error);
            },
        };
        let current_group = &current.groups[0];
        proof {
            assert(records_some(*corpus, single@, project_root@, current.groups@[0]));
            let j = choose|j: int| 0 <= j < single@.len() && records_group(*corpus, #[trigger] single@[j], project_root@, current.groups@[0]);
            assert(j == 0);
            assert(same_group(single@[0], groups@[i as int]));
            lemma_same_group_facts(*corpus, single@[0], groups@[i as int], project_root@);
            assert(records_group(*corpus, groups@[i as int], project_root@, *current_group));
        }
        let accepted_index = find_accepted(&baseline.groups, &current_group.fingerprint);
        let accepted: Option<&BaselineGroup> = match accepted_index {
            Some(k) => Some(&baseline.groups[k]),
            None => None,
        };
        let accepted_len: usize = match accepted {
            Some(g) => g.occurrences.len(),
            None => 0,
        };
        proof {
            if ready {
                assert(no_more_entries(single@, current.groups@[0]));
                let j = choose|j: int| 0 <= j < single@.len() && current.groups@[0].occurrences@.len() <= (#[trigger] single@[j]).occurrences@.len();
                assert(j == 0);
                assert(same_group(single@[0], groups@[i as int]));
                lemma_occurrences_within_total(groups@, i as int);
                if let Some(k) = accepted_index {
                    lemma_entries_within_total(baseline.groups@, k as int);
                }
                assert(sides >= 1);
                assert(total <= sides * total) by (nonlinear_arith)
                    requires
                        sides >= 1,
                        total >= 0,
                ;
            }
        }
        if current_group.occurrences.len() > 4294967295usize || accepted_len > 4294967295usize
            - current_group.occurrences.len() {
            return Err(BaselineError::DebtCountOverflow);
        }
        let status = compare_group_status(Some(current_group), accepted);
        proof {
            if ready {
                lemma_scaled((occurrences_of(Some(current_group)).len() + occurrences_of(accepted).len()) as int, total);
            }
        }
        proof {
            let acc = occurrences_of(accepted);
            assert(acc == accepted_entries(baseline_groups, group_fingerprint_text(*corpus, groups@[i as int])));
            lemma_status_active(*corpus, groups@[i as int], project_root@, *current_group, acc, status, baseline_groups);
            assert(groups@.take(i + 1).drop_last() =~= groups@.take(i as int));
            assert(groups@.take(i + 1).last() == groups@[i as int]);
        }
        if status.summary.active > 0 {
            let ghost before = active_groups@;
            active_groups.push(group.clone());
            proof {
                assert forall|k: int| 0 <= k < before.len() implies #[trigger] active_groups@[k] == before[k] by {}
            }
        }
        let ghost pruned_before = pruned_groups@;
        let ghost mut pushed = false;
        if let Some(accepted_group) = accepted {
            if let Some(pruned) = prune_group(current_group, accepted_group) {
                pruned_groups.push(pruned);
                proof {
                    let k = accepted_index->0 as int;
                    assert(baseline_groups[k] == *accepted_group);
                    assert(pruned_groups@.drop_last() =~= pruned_before);
                    assert(pruned_for(*corpus, groups@[i as int], project_root@, baseline_groups, pruned_groups@.last())) by {
                        reveal(pruned_for);
                        assert(records_group(*corpus, groups@[i as int], project_root@, *current_group));
                        assert(baseline_groups[k] == baseline_groups[k]);
                    }
                    pushed = true;
                }
            }
        }
        proof {
            if !pushed {
                assert(!keeps_debt(*corpus, groups@[i as int], project_root@, baseline_groups)) by {
                    reveal(keeps_debt);
                    assert(records_group(*corpus, groups@[i as int], project_root@, *current_group));
                    if accepted_index is None {
                        assert(pruned_entries(current_group.occurrences@, seq![]) =~= seq![]);
                    }
                }
            }
            lemma_prune_listed_step(
                *corpus,
                groups@,
                project_root@,
                baseline_groups,
                i as int,
                pruned_before,
                pruned_groups@,
                pushed,
            );
        }
        let ghost names = current_fingerprints@;
        current_fingerprints.push(current_group.fingerprint.clone());
        let ghost prior = status_groups@;
        status_groups.push(status);
        proof {
            assert(records_group(*corpus, groups@[i as int], project_root@, *current_group));
            assert(current_debt_status(*corpus, groups@[i as int], project_root@, baseline_groups, status)) by {
                reveal(current_debt_status);
            }
            assert forall|t: int| 0 <= t < i + 1 implies (#[trigger] current_fingerprints@[t])@ == group_fingerprint_text(
                *corpus,
                groups@[t],
            ) by {
                if t < i {
                    assert(current_fingerprints@[t] == names[t]);
                }
            }
            assert forall|t: int| 0 <= t < i + 1 implies current_debt_status(
                *corpus,
                groups@[t],
                project_root@,
                baseline_groups,
                #[trigger] status_groups@[t],
            ) by {
                if t < i {
                    assert(status_groups@[t] == prior[t]);
                }
            }
        }
        proof {
            if ready {
                assert forall|t: int| 0 <= t < status_groups@.len() implies summary_within(#[trigger] status_groups@[t], bound) by {
                    if t < prior.len() {
                        assert(status_groups@[t] == prior[t]);
                    }
                }
            }
        }
        i = i + 1;
    }
    proof {
        assert(groups@.take(i as int) =~= groups@);
    }
    let mut b: usize = 0;
    while b < baseline.groups.len()
        invariant
            b <= baseline.groups@.len(),
            forall|k: int| 0 <= k < baseline.groups@.len() ==> counts_sorted((#[trigger] baseline.groups@[k]).occurrences@),
            ready == ((forall|i: int|
                0 <= i < groups@.len() ==> fingerprint_ok(*corpus, #[trigger] groups@[i]) && counts_ok(
                    *corpus,
                    groups@[i],
                    project_root@,
                )) && debt_fits(groups@, baseline.groups@)),
            total == group_occurrence_total(groups@) + entry_total(baseline.groups@),
            bound == total * 4294967295,
            sides == groups@.len() + baseline.groups@.len(),
            status_groups@.len() <= groups@.len() + b,
            ready ==> forall|t: int| 0 <= t < status_groups@.len() ==> summary_within(#[trigger] status_groups@[t], bound),
            groups@.len() <= status_groups@.len(),
            current_fingerprints@.len() == groups@.len(),
            forall|t: int|
                0 <= t < groups@.len() ==> (#[trigger] current_fingerprints@[t])@ == group_fingerprint_text(*corpus, groups@[t]),
            forall|t: int|
                0 <= t < groups@.len() ==> current_debt_status(
                    *corpus,
                    groups@[t],
                    project_root@,
                    baseline.groups@,
                    #[trigger] status_groups@[t],
                ),
            forall|t: int|
                groups@.len() <= t < status_groups@.len() ==> status_accounted(
                    *corpus,
                    groups@,
                    project_root@,
                    baseline.groups@,
                    #[trigger] status_groups@[t],
                ),
            forall|k: int|
                0 <= k < b && unmatched(*corpus, groups@, #[trigger] baseline.groups@[k]) ==> stale_listed(
                    baseline.groups@[k],
                    status_groups@,
                ),
            forall|t: int|
                0 <= t < pruned_groups@.len() ==> pruned_among(
                    *corpus,
                    groups@,
                    project_root@,
                    baseline.groups@,
                    #[trigger] pruned_groups@[t],
                ),
            forall|j: int|
                0 <= j < groups@.len() && keeps_debt(*corpus, #[trigger] groups@[j], project_root@, baseline.groups@) ==> pruned_listed(
                    *corpus,
                    groups@[j],
                    project_root@,
                    baseline.groups@,
                    pruned_groups@,
                ),
        decreases baseline.groups@.len() - b,
    {
        let accepted_group = &baseline.groups[b];
        if !contains_name(&current_fingerprints, &accepted_group.fingerprint) {
            proof {
                if ready {
                    lemma_entries_within_total(baseline.groups@, b as int);
                    assert(sides >= 1);
                    assert(total <= sides * total) by (nonlinear_arith)
                        requires
                            sides >= 1,
                            total >= 0,
                    ;
                }
            }
            if accepted_group.occurrences.len() > 4294967295usize {
                return Err(BaselineError::DebtCountOverflow);
            }
            let ghost before = status_groups@;
            let status = compare_group_status(None, Some(accepted_group));
            proof {
                if ready {
                    lemma_scaled((occurrences_of(None).len() + occurrences_of(Some(accepted_group)).len()) as int, total);
                }
            }
            status_groups.push(status);
            proof {
                if ready {
                    assert forall|t: int| 0 <= t < status_groups@.len() implies summary_within(#[trigger] status_groups@[t], bound) by {
                        if t < before.len() {
                            assert(status_groups@[t] == before[t]);
                        }
                    }
                }
                let bg = baseline.groups@[b as int];
                let n = before.len() as int;
                assert(unmatched(*corpus, groups@, bg)) by {
                    assert forall|i: int| 0 <= i < groups@.len() implies group_fingerprint_text(
                        *corpus,
                        #[trigger] groups@[i],
                    ) != bg.fingerprint@ by {
                        assert(current_fingerprints@[i]@ == group_fingerprint_text(*corpus, groups@[i]));
                    }
                }
                assert(stale_debt_status(bg, status_groups@[n]));
                assert forall|t: int| 0 <= t < groups@.len() implies current_debt_status(
                    *corpus,
                    groups@[t],
                    project_root@,
                    baseline.groups@,
                    #[trigger] status_groups@[t],
                ) by {
                    assert(status_groups@[t] == before[t]);
                }
                assert forall|t: int| groups@.len() <= t < status_groups@.len() implies status_accounted(
                    *corpus,
                    groups@,
                    project_root@,
                    baseline.groups@,
                    #[trigger] status_groups@[t],
                ) by {
                    if t < n {
                        assert(status_groups@[t] == before[t]);
                    } else {
                        assert(unmatched(*corpus, groups@, baseline.groups@[b as int]));
                    }
                }
                assert forall|k: int| 0 <= k < b + 1 && unmatched(*corpus, groups@, #[trigger] baseline.groups@[k]) implies stale_listed(
                    baseline.groups@[k],
                    status_groups@,
                ) by {
                    if k < b {
                        assert(stale_listed(baseline.groups@[k], before));
                        let t = choose|t: int| 0 <= t < before.len() && stale_debt_status(baseline.groups@[k], #[trigger] before[t]);
                        assert(status_groups@[t] == before[t]);
                    } else {
                        assert(stale_debt_status(baseline.groups@[k], status_groups@[n]));
                    }
                }
            }
        } else {
            proof {
                let t = choose|t: int| 0 <= t < current_fingerprints@.len() && (#[trigger] current_fingerprints@[t])@ == accepted_group.fingerprint@;
                assert(!unmatched(*corpus, groups@, baseline.groups@[b as int])) by {
                    assert(group_fingerprint_text(*corpus, groups@[t]) == baseline.groups@[b as int].fingerprint@);
                }
            }
        }
        b = b + 1;
    }
    let sorted_status = sort_status_groups(&status_groups);
    proof {
        lemma_statuses_complete(*corpus, groups@, project_root@, baseline.groups@, status_groups@);
        lemma_statuses_reordered(*corpus, groups@, project_root@, baseline.groups@, status_groups@, sorted_status@);
    }
    proof {
        if ready {
            assert forall|t: int| 0 <= t < sorted_status@.len() implies summary_within(#[trigger] sorted_status@[t], bound) by {
                assert(summary_among(status_groups@, sorted_status@[t]));
                let k = choose|k: int| 0 <= k < status_groups@.len() && (#[trigger] status_groups@[k]).summary == sorted_status@[t].summary;
                assert(summary_within(status_groups@[k], bound));
            }
            assert(bound >= 0);
            lemma_totals_within(sorted_status@, bound);
            let n = sorted_status@.len() as int;
            assert(n <= sides);
            assert(n * bound <= sides * total * 4294967295) by (nonlinear_arith)
                requires
                    0 <= n <= sides,
                    bound == total * 4294967295,
                    total >= 0,
            ;
            assert(sides * total <= u32::MAX);
            assert(sides * total * 4294967295 <= u32::MAX * 4294967295) by (nonlinear_arith)
                requires
                    0 <= sides * total <= u32::MAX,
            ;
        }
    }
    if !checked_totals(&sorted_status) {
        return Err(BaselineError::DebtCountOverflow);
    }
    let pruned = sort_by_fingerprint(&pruned_groups);
    proof {
        lemma_pruned_reordered(*corpus, groups@, project_root@, baseline.groups@, pruned_groups@, pruned@);
    }
    Ok(
        BaselineComparison {
            active_groups,
            status: BaselineStatus::new(sorted_status),
            pruned: Baseline { version: baseline.version, normalization: baseline.normalization, groups: pruned },
        },
    )
}

/// Removes the duplicate groups whose debt the baseline fully accepts.
pub fn filter_active_groups(
    corpus: &Corpus,
    groups: Vec<DuplicateGroup>,
    baseline: &Baseline,
    normalization: NormalizationOptions,
    project_root: &str,
) -> (result: Result<Vec<DuplicateGroup>, BaselineError>)
    requires
        forall|k: int| 0 <= k < baseline.groups@.len() ==> counts_sorted((#[trigger] baseline.groups@[k]).occurrences@),
    ensures
        result matches Ok(active) ==> {
            let expected = active_filter(*corpus, groups@, project_root@, baseline.groups@);
            &&& active@.len() == expected.len()
            &&& forall|k: int| 0 <= k < expected.len() ==> same_group(#[trigger] active@[k], expected[k])
        },
        result is Err ==> (exists|i: int| 0 <= i < groups@.len() && !(fingerprint_ok(*corpus, #[trigger] groups@[i])
            && counts_ok(*corpus, groups@[i], project_root@))) || result->Err_0 is DebtCountOverflow,
        (forall|i: int|
            0 <= i < groups@.len() ==> fingerprint_ok(*corpus, #[trigger] groups@[i]) && counts_ok(
                *corpus,
                groups@[i],
                project_root@,
            )) && debt_fits(groups@, baseline.groups@) ==> result is Ok,
{
    match compare_baseline(corpus, groups, baseline, normalization, project_root) {
        Ok(comparison) => Ok(comparison.active_groups),
        Err(error) => Err(error),
    }
}

// ----------------------------------------------------------------------
// Laws.
proof fn lemma_count_at_is_entry_count(occ: Seq<BaselinePathCount>, p: Seq<char>)
    requires
        counts_sorted(occ),
    ensures
        count_at(occ, p) == entry_count(occ, p),
    decreases occ.len(),
{
    if occ.len() > 0 {
        let rest = occ.drop_last();
        assert(counts_sorted(rest)) by {
            assert forall|a: int, b: int| 0 <= a < b < rest.len() implies bytes_lt(
                text_bytes((#[trigger] rest[a]).path@),
                text_bytes((#[trigger] rest[b]).path@),
            ) by {
                assert(rest[a] == occ[a] && rest[b] == occ[b]);
            }
        }
        lemma_count_at_is_entry_count(rest, p);
        if occ.last().path@ == p {
            lemma_sorted_unique(occ, occ.len() - 1);
            assert forall|t: int| 0 <= t < rest.len() implies (#[trigger] rest[t]).path@ != p by {
                assert(rest[t] == occ[t]);
            }
            lemma_entry_count_absent(rest, p);
        }
    }
}

proof fn lemma_accepted_entries_of(groups: Seq<BaselineGroup>, k: int)
    requires
        groups_sorted(groups),
        0 <= k < groups.len(),
    ensures
        accepted_entries(groups, groups[k].fingerprint@) == groups[k].occurrences@,
    decreases groups.len(),
{
    let last = groups.len() - 1;
    if k < last {
        let rest = groups.drop_last();
        assert(bytes_lt(text_bytes(groups[k].fingerprint@), text_bytes(groups[last].fingerprint@)));
        if groups[last].fingerprint@ == groups[k].fingerprint@ {
            lemma_bytes_lt_irreflexive(text_bytes(groups[k].fingerprint@));
        }
        assert(groups_sorted(rest)) by {
            assert forall|a: int, b: int| 0 <= a < b < rest.len() implies bytes_lt(
                text_bytes((#[trigger] rest[a]).fingerprint@),
                text_bytes((#[trigger] rest[b]).fingerprint@),
            ) by {
                assert(rest[a] == groups[a] && rest[b] == groups[b]);
            }
        }
        lemma_accepted_entries_of(rest, k);
        assert(rest[k] == groups[k]);
    }
}

/// A baseline that records every current group accepts all of them:
/// enforcing a baseline just written from the detected groups reports no
/// group. The requirements are what `build_baseline` ensures of the
/// baseline it builds from `groups`.
pub proof fn law_recorded_groups_are_accepted(
    corpus: Corpus,
    groups: Seq<DuplicateGroup>,
    root: Seq<char>,
    baseline: Seq<BaselineGroup>,
)
    requires
        groups_sorted(baseline),
        forall|i: int| 0 <= i < groups.len() ==> recorded_by_some(corpus, #[trigger] groups[i], root, baseline),
    ensures
        active_filter(corpus, groups, root, baseline) == Seq::<DuplicateGroup>::empty(),
    decreases groups.len(),
{
    if groups.len() > 0 {
        let rest = groups.drop_last();
        assert forall|i: int| 0 <= i < rest.len() implies recorded_by_some(corpus, #[trigger] rest[i], root, baseline) by {
            assert(rest[i] == groups[i]);
        }
        law_recorded_groups_are_accepted(corpus, rest, root, baseline);
        let g = groups.last();
        assert(recorded_by_some(corpus, groups[groups.len() - 1], root, baseline));
        let k = choose|k: int| 0 <= k < baseline.len() && records_group(corpus, g, root, #[trigger] baseline[k]);
        lemma_accepted_entries_of(baseline, k);
        assert forall|p: Seq<char>| !(#[trigger] count_in(occurrence_paths(corpus, g, root), p) > count_at(
            accepted_entries(baseline, group_fingerprint_text(corpus, g)),
            p,
        )) by {
            lemma_count_at_is_entry_count(baseline[k].occurrences@, p);
            assert(entry_count(baseline[k].occurrences@, p) == count_in(occurrence_paths(corpus, g, root), p));
        }
        assert(!group_active(corpus, g, root, baseline));
        assert(active_filter(corpus, groups, root, baseline) =~= Seq::<DuplicateGroup>::empty());
    }
}

proof fn lemma_pruned_entries(current: Seq<BaselinePathCount>, accepted: Seq<BaselinePathCount>)
    requires
        counts_sorted(accepted),
    ensures
        forall|k: int|
            0 <= k < pruned_entries(current, accepted).len() ==> {
                let entry = #[trigger] pruned_entries(current, accepted)[k];
                &&& names_path(accepted, entry.0)
                &&& 0 < entry.1 <= count_at(accepted, entry.0)
                &&& entry.1 <= count_at(current, entry.0)
            },
    decreases accepted.len(),
{
    if accepted.len() > 0 {
        let rest = accepted.drop_last();
        let last = accepted.last();
        assert(counts_sorted(rest)) by {
            assert forall|a: int, b: int| 0 <= a < b < rest.len() implies bytes_lt(
                text_bytes((#[trigger] rest[a]).path@),
                text_bytes((#[trigger] rest[b]).path@),
            ) by {
                assert(rest[a] == accepted[a] && rest[b] == accepted[b]);
            }
        }
        lemma_pruned_entries(current, rest);
        lemma_sorted_unique(accepted, accepted.len() - 1);
        let before = pruned_entries(current, rest);
        let entries = pruned_entries(current, accepted);
        assert forall|k: int| 0 <= k < entries.len() implies {
            let entry = #[trigger] entries[k];
            &&& names_path(accepted, entry.0)
            &&& 0 < entry.1 <= count_at(accepted, entry.0)
            &&& entry.1 <= count_at(current, entry.0)
        } by {
            if k < before.len() {
                assert(entries[k] == before[k]);
                let entry = before[k];
                let i = choose|i: int| 0 <= i < rest.len() && (#[trigger] rest[i]).path@ == entry.0;
                assert(accepted[i] == rest[i]);
                assert(accepted[i].path@ != last.path@);
            } else {
                assert(entries[k] == (last.path@, min_nat(count_at(current, last.path@), last.count as nat)));
                assert(accepted[accepted.len() - 1] == last);
            }
        }
    }
}

/// Pruning never accepts new debt: each path a pruned group keeps holds
/// some copies, no more than the baseline recorded there and no more than
/// are found there now.
pub proof fn law_pruning_accepts_no_new_debt(current: &BaselineGroup, baseline: &BaselineGroup, pruned: BaselineGroup)
    requires
        counts_sorted(baseline.occurrences@),
        pruned.occurrences@.len() == pruned_entries(current.occurrences@, baseline.occurrences@).len(),
        forall|k: int|
            0 <= k < pruned.occurrences@.len() ==> (#[trigger] pruned.occurrences@[k]).path@ == pruned_entries(
                current.occurrences@,
                baseline.occurrences@,
            )[k].0 && pruned.occurrences@[k].count == pruned_entries(current.occurrences@, baseline.occurrences@)[k].1,
    ensures
        forall|k: int|
            0 <= k < pruned.occurrences@.len() ==> {
                let entry = #[trigger] pruned.occurrences@[k];
                &&& 0 < entry.count <= count_at(baseline.occurrences@, entry.path@)
                &&& entry.count <= count_at(current.occurrences@, entry.path@)
            },
{
    lemma_pruned_entries(current.occurrences@, baseline.occurrences@);
    assert forall|k: int| 0 <= k < pruned.occurrences@.len() implies {
        let entry = #[trigger] pruned.occurrences@[k];
        &&& 0 < entry.count <= count_at(baseline.occurrences@, entry.path@)
        &&& entry.count <= count_at(current.occurrences@, entry.path@)
    } by {
        let e = pruned_entries(current.occurrences@, baseline.occurrences@)[k];
        assert(pruned.occurrences@[k].path@ == e.0);
    }
}

} // verus!
