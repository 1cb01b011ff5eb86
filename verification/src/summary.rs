use vstd::prelude::*;

use crate::chars::same_text;
use crate::order::{bytes_lt, compare_bytes, lemma_bytes_lt_asymmetric, lemma_bytes_lt_irreflexive, lemma_bytes_lt_total, lemma_bytes_lt_transitive, text_bytes, Comparison};
use crate::report::{Finding, FindingContext, FindingDistribution, FindingScope, Location, Report};

verus! {

/// Findings by structural context.
#[derive(Debug, Clone, Copy, PartialEq, Eq, Structural)]
pub struct ContextSummary {
    pub executable: u64,
    pub declarative: u64,
    pub mixed: u64,
}

/// Findings by scope.
#[derive(Debug, Clone, Copy, PartialEq, Eq, Structural)]
pub struct ScopeSummary {
    pub function: u64,
    pub module: u64,
    pub class: u64,
    pub mixed: u64,
}

/// Findings by how their copies spread over files.
#[derive(Debug, Clone, Copy, PartialEq, Eq, Structural)]
pub struct DistributionSummary {
    pub cross_file: u64,
    pub same_file: u64,
    pub mixed: u64,
}

/// A file holding duplicates: in how many groups, and how many copies.
#[derive(Debug, Clone, PartialEq, Eq)]
pub struct Hotspot {
    pub path: String,
    pub groups: u64,
    pub occurrences: u64,
}

/// Most hotspots a summary lists.
pub const HOTSPOT_LIMIT: usize = 5;

/// The overview of a report.
#[derive(Debug, Clone, PartialEq, Eq)]
pub struct Summary {
    pub files: u64,
    pub files_with_duplicates: u64,
    pub source_lines: u64,
    pub analyzed_lines: u64,
    pub duplicate_groups: u64,
    pub occurrences: u64,
    pub duplicate_lines: u64,
    pub context: ContextSummary,
    pub scope: ScopeSummary,
    pub distribution: DistributionSummary,
    pub hotspots: Vec<Hotspot>,
}

// ----------------------------------------------------------------------
// Counts.
/// Findings of `fs` with context `c`.
pub open spec fn count_context(fs: Seq<Finding>, c: FindingContext) -> nat
    decreases fs.len(),
{
    if fs.len() == 0 {
        0
    } else {
        count_context(fs.drop_last(), c) + if fs.last().context == c {
            1nat
        } else {
            0nat
        }
    }
}

/// Findings of `fs` with scope `s`.
pub open spec fn count_scope(fs: Seq<Finding>, s: FindingScope) -> nat
    decreases fs.len(),
{
    if fs.len() == 0 {
        0
    } else {
        count_scope(fs.drop_last(), s) + if fs.last().scope == s {
            1nat
        } else {
            0nat
        }
    }
}

/// Findings of `fs` with distribution `d`.
pub open spec fn count_distribution(fs: Seq<Finding>, d: FindingDistribution) -> nat
    decreases fs.len(),
{
    if fs.len() == 0 {
        0
    } else {
        count_distribution(fs.drop_last(), d) + if fs.last().distribution == d {
            1nat
        } else {
            0nat
        }
    }
}

/// Occurrences over all findings.
pub open spec fn occurrence_total(fs: Seq<Finding>) -> nat
    decreases fs.len(),
{
    if fs.len() == 0 {
        0
    } else {
        occurrence_total(fs.drop_last()) + fs.last().occurrences as nat
    }
}

/// Locations over all findings.
pub open spec fn location_total(fs: Seq<Finding>) -> nat
    decreases fs.len(),
{
    if fs.len() == 0 {
        0
    } else {
        location_total(fs.drop_last()) + fs.last().locations@.len()
    }
}

proof fn lemma_counts_bounded(fs: Seq<Finding>)
    ensures
        count_context(fs, FindingContext::Executable) + count_context(fs, FindingContext::Declarative) + count_context(
            fs,
            FindingContext::Mixed,
        ) == fs.len(),
        count_scope(fs, FindingScope::Function) + count_scope(fs, FindingScope::Module) + count_scope(
            fs,
            FindingScope::Class,
        ) + count_scope(fs, FindingScope::Mixed) == fs.len(),
        count_distribution(fs, FindingDistribution::CrossFile) + count_distribution(fs, FindingDistribution::SameFile)
            + count_distribution(fs, FindingDistribution::Mixed) == fs.len(),
    decreases fs.len(),
{
    if fs.len() > 0 {
        lemma_counts_bounded(fs.drop_last());
    }
}

/// Every finding falls in exactly one context, one scope and one
/// distribution, so each breakdown adds up to the number of duplicate
/// groups.
pub proof fn law_breakdowns_add_up(fs: Seq<Finding>)
    ensures
        count_context(fs, FindingContext::Executable) + count_context(fs, FindingContext::Declarative) + count_context(
            fs,
            FindingContext::Mixed,
        ) == fs.len(),
        count_scope(fs, FindingScope::Function) + count_scope(fs, FindingScope::Module) + count_scope(
            fs,
            FindingScope::Class,
        ) + count_scope(fs, FindingScope::Mixed) == fs.len(),
        count_distribution(fs, FindingDistribution::CrossFile) + count_distribution(fs, FindingDistribution::SameFile)
            + count_distribution(fs, FindingDistribution::Mixed) == fs.len(),
{
    lemma_counts_bounded(fs);
}

/// The breakdowns of `findings` and their total of occurrences.
fn breakdowns(findings: &Vec<Finding>) -> (counts: (ContextSummary, ScopeSummary, DistributionSummary, u64))
    requires
        occurrence_total(findings@) <= u64::MAX,
        findings@.len() <= u64::MAX,
    ensures
        counts.0 == (ContextSummary {
            executable: count_context(findings@, FindingContext::Executable) as u64,
            declarative: count_context(findings@, FindingContext::Declarative) as u64,
            mixed: count_context(findings@, FindingContext::Mixed) as u64,
        }),
        counts.1 == (ScopeSummary {
            function: count_scope(findings@, FindingScope::Function) as u64,
            module: count_scope(findings@, FindingScope::Module) as u64,
            class: count_scope(findings@, FindingScope::Class) as u64,
            mixed: count_scope(findings@, FindingScope::Mixed) as u64,
        }),
        counts.2 == (DistributionSummary {
            cross_file: count_distribution(findings@, FindingDistribution::CrossFile) as u64,
            same_file: count_distribution(findings@, FindingDistribution::SameFile) as u64,
            mixed: count_distribution(findings@, FindingDistribution::Mixed) as u64,
        }),
        counts.3 == occurrence_total(findings@),
{
    let mut context = ContextSummary { executable: 0, declarative: 0, mixed: 0 };
    let mut scope = ScopeSummary { function: 0, module: 0, class: 0, mixed: 0 };
    let mut distribution = DistributionSummary { cross_file: 0, same_file: 0, mixed: 0 };
    let mut occurrences: u64 = 0;
    let mut i: usize = 0;
    while i < findings.len()
        invariant
            i <= findings@.len(),
            findings@.len() <= u64::MAX,
            occurrence_total(findings@) <= u64::MAX,
            context == (ContextSummary {
                executable: count_context(findings@.take(i as int), FindingContext::Executable) as u64,
                declarative: count_context(findings@.take(i as int), FindingContext::Declarative) as u64,
                mixed: count_context(findings@.take(i as int), FindingContext::Mixed) as u64,
            }),
            scope == (ScopeSummary {
                function: count_scope(findings@.take(i as int), FindingScope::Function) as u64,
                module: count_scope(findings@.take(i as int), FindingScope::Module) as u64,
                class: count_scope(findings@.take(i as int), FindingScope::Class) as u64,
                mixed: count_scope(findings@.take(i as int), FindingScope::Mixed) as u64,
            }),
            distribution == (DistributionSummary {
                cross_file: count_distribution(findings@.take(i as int), FindingDistribution::CrossFile) as u64,
                same_file: count_distribution(findings@.take(i as int), FindingDistribution::SameFile) as u64,
                mixed: count_distribution(findings@.take(i as int), FindingDistribution::Mixed) as u64,
            }),
            occurrences == occurrence_total(findings@.take(i as int)),
        decreases findings@.len() - i,
    {
        let f = &findings[i];
        proof {
            let next = findings@.take(i + 1);
            assert(next.drop_last() =~= findings@.take(i as int));
            assert(next.last() == findings@[i as int]);
            lemma_counts_bounded(next);
            lemma_occurrence_total_prefix(findings@, i + 1);
        }
        match f.context {
            FindingContext::Executable => context.executable = context.executable + 1,
            FindingContext::Declarative => context.declarative = context.declarative + 1,
            FindingContext::Mixed => context.mixed = context.mixed + 1,
        }
        match f.scope {
            FindingScope::Function => scope.function = scope.function + 1,
            FindingScope::Module => scope.module = scope.module + 1,
            FindingScope::Class => scope.class = scope.class + 1,
            FindingScope::Mixed => scope.mixed = scope.mixed + 1,
        }
        match f.distribution {
            FindingDistribution::CrossFile => distribution.cross_file = distribution.cross_file + 1,
            FindingDistribution::SameFile => distribution.same_file = distribution.same_file + 1,
            FindingDistribution::Mixed => distribution.mixed = distribution.mixed + 1,
        }
        occurrences = occurrences + f.occurrences as u64;
        i = i + 1;
    }
    proof {
        assert(findings@.take(i as int) =~= findings@);
    }
    (context, scope, distribution, occurrences)
}

proof fn lemma_occurrence_total_prefix(fs: Seq<Finding>, n: int)
    requires
        0 <= n <= fs.len(),
    ensures
        occurrence_total(fs.take(n)) <= occurrence_total(fs),
    decreases fs.len() - n,
{
    if n < fs.len() {
        lemma_occurrence_total_prefix(fs, n + 1);
        assert(fs.take(n + 1).drop_last() =~= fs.take(n));
    } else {
        assert(fs.take(n) =~= fs);
    }
}

// ----------------------------------------------------------------------
// Hotspots.
/// Paths of locations `ls`.
pub open spec fn location_paths(ls: Seq<Location>) -> Set<Seq<char>>
    decreases ls.len(),
{
    if ls.len() == 0 {
        Set::empty()
    } else {
        location_paths(ls.drop_last()).insert(ls.last().path@)
    }
}

/// Paths of all locations of `fs`: the files with duplicates.
pub open spec fn finding_paths(fs: Seq<Finding>) -> Set<Seq<char>>
    decreases fs.len(),
{
    if fs.len() == 0 {
        Set::empty()
    } else {
        finding_paths(fs.drop_last()).union(location_paths(fs.last().locations@))
    }
}

/// Locations of `ls` in `p`.
pub open spec fn hits_in(ls: Seq<Location>, p: Seq<char>) -> nat
    decreases ls.len(),
{
    if ls.len() == 0 {
        0
    } else {
        hits_in(ls.drop_last(), p) + if ls.last().path@ == p {
            1nat
        } else {
            0nat
        }
    }
}

/// Copies in `p` over all findings.
pub open spec fn path_hits(fs: Seq<Finding>, p: Seq<char>) -> nat
    decreases fs.len(),
{
    if fs.len() == 0 {
        0
    } else {
        path_hits(fs.drop_last(), p) + hits_in(fs.last().locations@, p)
    }
}

/// Findings with a copy in `p`.
pub open spec fn path_groups(fs: Seq<Finding>, p: Seq<char>) -> nat
    decreases fs.len(),
{
    if fs.len() == 0 {
        0
    } else {
        path_groups(fs.drop_last(), p) + if location_paths(fs.last().locations@).contains(p) {
            1nat
        } else {
            0nat
        }
    }
}

/// Hotspot order: more groups first, then more copies, then path.
pub open spec fn ranks_before(g1: int, o1: int, p1: Seq<char>, g2: int, o2: int, p2: Seq<char>) -> bool {
    g1 > g2 || (g1 == g2 && (o1 > o2 || (o1 == o2 && bytes_lt(text_bytes(p1), text_bytes(p2)))))
}

pub open spec fn hot_lt(a: Hotspot, b: Hotspot) -> bool {
    ranks_before(a.groups as int, a.occurrences as int, a.path@, b.groups as int, b.occurrences as int, b.path@)
}

/// Some text of `list` is `p`.
pub open spec fn listed(list: Seq<String>, p: Seq<char>) -> bool {
    exists|k: int| 0 <= k < list.len() && (#[trigger] list[k])@ == p
}

/// No two texts of `list` are equal.
pub open spec fn distinct_texts(list: Seq<String>) -> bool {
    forall|a: int, b: int| 0 <= a < b < list.len() ==> (#[trigger] list[a])@ != (#[trigger] list[b])@
}

proof fn lemma_location_paths_take(ls: Seq<Location>, j: int)
    requires
        0 <= j < ls.len(),
    ensures
        location_paths(ls.take(j + 1)) == location_paths(ls.take(j)).insert(ls[j].path@),
{
    assert(ls.take(j + 1).drop_last() =~= ls.take(j));
}

proof fn lemma_finding_paths_take(fs: Seq<Finding>, i: int)
    requires
        0 <= i < fs.len(),
    ensures
        finding_paths(fs.take(i + 1)) == finding_paths(fs.take(i)).union(location_paths(fs[i].locations@)),
{
    assert(fs.take(i + 1).drop_last() =~= fs.take(i));
}

fn find_text(list: &Vec<String>, text: &str) -> (found: Option<usize>)
    ensures
        match found {
            Some(k) => k < list@.len() && list@[k as int]@ == text@,
            None => !listed(list@, text@),
        },
{
    let mut k: usize = 0;
    while k < list.len()
        invariant
            k <= list@.len(),
            forall|j: int| 0 <= j < k ==> (#[trigger] list@[j])@ != text@,
        decreases list@.len() - k,
    {
        if same_text(list[k].as_str(), text) {
            return Some(k);
        }
        k = k + 1;
    }
    None
}

/// The files with duplicates, each once, in order of first appearance.
fn distinct_paths(findings: &Vec<Finding>) -> (paths: Vec<String>)
    ensures
        distinct_texts(paths@),
        forall|p: Seq<char>| listed(paths@, p) <==> finding_paths(findings@).contains(p),
{
    let mut paths: Vec<String> = Vec::new();
    let mut i: usize = 0;
    while i < findings.len()
        invariant
            i <= findings@.len(),
            distinct_texts(paths@),
            forall|p: Seq<char>| listed(paths@, p) <==> finding_paths(findings@.take(i as int)).contains(p),
        decreases findings@.len() - i,
    {
        let locations = &findings[i].locations;
        let ghost base = finding_paths(findings@.take(i as int));
        let mut j: usize = 0;
        while j < locations.len()
            invariant
                i < findings@.len(),
                locations == &findings@[i as int].locations,
                j <= locations@.len(),
                distinct_texts(paths@),
                base == finding_paths(findings@.take(i as int)),
                forall|p: Seq<char>| listed(paths@, p) <==> (base.contains(p) || location_paths(locations@.take(j as int)).contains(p)),
            decreases locations@.len() - j,
        {
            let path = locations[j].path.as_str();
            proof {
                lemma_location_paths_take(locations@, j as int);
            }
            let ghost before = paths@;
            let ghost old_locs = location_paths(locations@.take(j as int));
            let ghost new_locs = location_paths(locations@.take(j + 1));
            proof {
                assert(new_locs == old_locs.insert(path@));
                assert(forall|p: Seq<char>| listed(before, p) <==> (base.contains(p) || old_locs.contains(p)));
            }
            match find_text(&paths, path) {
                Some(k) => {
                    proof {
                        assert forall|p: Seq<char>| listed(paths@, p) <==> (base.contains(p) || new_locs.contains(p)) by {
                            if p == path@ {
                                assert(paths@[k as int]@ == p);
                            }
                        }
                    }
                },
                None => {
                    paths.push(path.to_owned());
                    proof {
                        assert forall|a: int, b: int| 0 <= a < b < paths@.len() implies (#[trigger] paths@[a])@ != (
                        #[trigger] paths@[b])@ by {
                            if b < before.len() {
                                assert(paths@[a] == before[a] && paths@[b] == before[b]);
                            } else {
                                assert(paths@[a] == before[a]);
                            }
                        }
                        assert forall|p: Seq<char>| listed(paths@, p) <==> (base.contains(p) || new_locs.contains(p)) by {
                            if p == path@ {
                                assert(paths@[paths@.len() - 1]@ == p);
                            } else {
                                if listed(paths@, p) {
                                    let k = choose|k: int| 0 <= k < paths@.len() && (#[trigger] paths@[k])@ == p;
                                    assert(k < before.len());
                                    assert(paths@[k] == before[k]);
                                    assert(listed(before, p));
                                }
                                if listed(before, p) {
                                    let k = choose|k: int| 0 <= k < before.len() && (#[trigger] before[k])@ == p;
                                    assert(paths@[k] == before[k]);
                                    assert(listed(paths@, p));
                                }
                            }
                        }
                    }
                },
            }
            j = j + 1;
        }
        proof {
            assert(locations@.take(j as int) =~= locations@);
            lemma_finding_paths_take(findings@, i as int);
            assert(location_paths(locations@.take(j as int)) == location_paths(findings@[i as int].locations@));
            assert forall|p: Seq<char>| listed(paths@, p) <==> finding_paths(findings@.take(i + 1)).contains(p) by {
                assert(finding_paths(findings@.take(i + 1)).contains(p) <==> (base.contains(p) || location_paths(
                    findings@[i as int].locations@,
                ).contains(p)));
            }
        }
        i = i + 1;
    }
    proof {
        assert(findings@.take(i as int) =~= findings@);
    }
    paths
}

proof fn lemma_hits_bound(ls: Seq<Location>, p: Seq<char>)
    ensures
        hits_in(ls, p) <= ls.len(),
    decreases ls.len(),
{
    if ls.len() > 0 {
        lemma_hits_bound(ls.drop_last(), p);
    }
}

proof fn lemma_path_counts_bound(fs: Seq<Finding>, p: Seq<char>)
    ensures
        path_groups(fs, p) <= fs.len(),
        path_hits(fs, p) <= location_total(fs),
    decreases fs.len(),
{
    if fs.len() > 0 {
        lemma_path_counts_bound(fs.drop_last(), p);
        lemma_hits_bound(fs.last().locations@, p);
    }
}

proof fn lemma_location_total_prefix(fs: Seq<Finding>, n: int)
    requires
        0 <= n <= fs.len(),
    ensures
        location_total(fs.take(n)) <= location_total(fs),
    decreases fs.len() - n,
{
    if n < fs.len() {
        lemma_location_total_prefix(fs, n + 1);
        assert(fs.take(n + 1).drop_last() =~= fs.take(n));
    } else {
        assert(fs.take(n) =~= fs);
    }
}

/// In how many findings `path` has copies, and how many.
fn path_counts(findings: &Vec<Finding>, path: &str) -> (counts: (u64, u64))
    requires
        findings@.len() <= u64::MAX,
        location_total(findings@) <= u64::MAX,
    ensures
        counts.0 == path_groups(findings@, path@),
        counts.1 == path_hits(findings@, path@),
{
    let mut groups: u64 = 0;
    let mut hits: u64 = 0;
    let mut i: usize = 0;
    while i < findings.len()
        invariant
            i <= findings@.len(),
            findings@.len() <= u64::MAX,
            location_total(findings@) <= u64::MAX,
            groups == path_groups(findings@.take(i as int), path@),
            hits == path_hits(findings@.take(i as int), path@),
        decreases findings@.len() - i,
    {
        let locations = &findings[i].locations;
        let mut present = false;
        let mut here: u64 = 0;
        let mut j: usize = 0;
        proof {
            let next = findings@.take(i + 1);
            assert(next.drop_last() =~= findings@.take(i as int));
            assert(next.last() == findings@[i as int]);
            lemma_path_counts_bound(next, path@);
            lemma_location_total_prefix(findings@, i + 1);
            lemma_hits_bound(locations@, path@);
        }
        while j < locations.len()
            invariant
                i < findings@.len(),
                locations == &findings@[i as int].locations,
                j <= locations@.len(),
                present == location_paths(locations@.take(j as int)).contains(path@),
                here == hits_in(locations@.take(j as int), path@),
                hits_in(locations@, path@) <= locations@.len(),
                here <= j,
            decreases locations@.len() - j,
        {
            proof {
                lemma_location_paths_take(locations@, j as int);
                assert(locations@.take(j + 1).drop_last() =~= locations@.take(j as int));
            }
            if same_text(locations[j].path.as_str(), path) {
                present = true;
                here = here + 1;
            }
            j = j + 1;
        }
        proof {
            assert(locations@.take(j as int) =~= locations@);
        }
        if present {
            groups = groups + 1;
        }
        hits = hits + here;
        i = i + 1;
    }
    proof {
        assert(findings@.take(i as int) =~= findings@);
    }
    (groups, hits)
}

proof fn lemma_hot_order(a: Hotspot, b: Hotspot, c: Hotspot)
    ensures
        !hot_lt(a, a),
        hot_lt(a, b) && hot_lt(b, c) ==> hot_lt(a, c),
        !(hot_lt(a, b) && hot_lt(b, a)),
        a.path@ != b.path@ ==> hot_lt(a, b) || hot_lt(b, a),
{
    let (pa, pb, pc) = (text_bytes(a.path@), text_bytes(b.path@), text_bytes(c.path@));
    lemma_bytes_lt_irreflexive(pa);
    if bytes_lt(pa, pb) && bytes_lt(pb, pc) {
        lemma_bytes_lt_transitive(pa, pb, pc);
    }
    lemma_bytes_lt_asymmetric(pa, pb);
    lemma_bytes_lt_total(pa, pb);
    if a.path@ != b.path@ && pa == pb {
        vstd::utf8::encode_utf8_decode_utf8(a.path@);
        vstd::utf8::encode_utf8_decode_utf8(b.path@);
    }
}

/// True when hotspot `a` ranks before `b`.
fn hot_before(a: &Hotspot, b: &Hotspot) -> (before: bool)
    ensures
        before == hot_lt(*a, *b),
{
    if a.groups != b.groups {
        a.groups > b.groups
    } else if a.occurrences != b.occurrences {
        a.occurrences > b.occurrences
    } else {
        compare_bytes(a.path.as_str().as_bytes(), b.path.as_str().as_bytes()) == Comparison::Less
    }
}

/// Indices of `spots` in hotspot order.
fn hotspot_order(spots: &Vec<Hotspot>) -> (order: Vec<usize>)
    requires
        forall|a: int, b: int| 0 <= a < b < spots@.len() ==> (#[trigger] spots@[a]).path@ != (#[trigger] spots@[b]).path@,
    ensures
        order@.len() == spots@.len(),
        order@.no_duplicates(),
        forall|r: int| 0 <= r < order@.len() ==> #[trigger] order@[r] < spots@.len(),
        forall|a: int, b: int|
            0 <= a < b < order@.len() ==> hot_lt(spots@[#[trigger] order@[a] as int], spots@[#[trigger] order@[b] as int]),
{
    let ghost h = spots@;
    let mut order: Vec<usize> = Vec::new();
    let mut i: usize = 0;
    while i < spots.len()
        invariant
            h == spots@,
            forall|a: int, b: int| 0 <= a < b < h.len() ==> (#[trigger] h[a]).path@ != (#[trigger] h[b]).path@,
            i <= h.len(),
            order@.len() == i,
            order@.no_duplicates(),
            forall|r: int| 0 <= r < order@.len() ==> #[trigger] order@[r] < i,
            forall|a: int, b: int| 0 <= a < b < order@.len() ==> hot_lt(h[#[trigger] order@[a] as int], h[#[trigger] order@[b] as int]),
        decreases h.len() - i,
    {
        let mut j: usize = 0;
        while j < order.len() && !hot_before(&spots[i], &spots[order[j]])
            invariant
                h == spots@,
                i < h.len(),
                j <= order@.len(),
                forall|r: int| 0 <= r < order@.len() ==> #[trigger] order@[r] < i,
                forall|r: int| 0 <= r < j ==> !hot_lt(h[i as int], h[#[trigger] order@[r] as int]),
            decreases order@.len() - j,
        {
            j = j + 1;
        }
        let ghost before = order@;
        order.insert(j, i);
        proof {
            assert(order@ == before.insert(j as int, i));
            assert forall|r: int| 0 <= r < order@.len() implies #[trigger] order@[r] < i + 1 by {
                if r < j {
                    assert(order@[r] == before[r]);
                } else if r > j {
                    assert(order@[r] == before[r - 1]);
                }
            }
            assert(order@.no_duplicates()) by {
                assert forall|a: int, b: int| 0 <= a < order@.len() && 0 <= b < order@.len() && a != b implies order@[a]
                    != order@[b] by {
                    if a != j && b != j {
                        let a0 = if a < j { a } else { a - 1 };
                        let b0 = if b < j { b } else { b - 1 };
                        assert(order@[a] == before[a0] && order@[b] == before[b0]);
                    } else if a == j {
                        let b0 = if b < j { b } else { b - 1 };
                        assert(order@[b] == before[b0] && before[b0] < i);
                    } else {
                        let a0 = if a < j { a } else { a - 1 };
                        assert(order@[a] == before[a0] && before[a0] < i);
                    }
                }
            }
            assert forall|a: int, b: int| 0 <= a < b < order@.len() implies hot_lt(
                h[#[trigger] order@[a] as int],
                h[#[trigger] order@[b] as int],
            ) by {
                let x = h[i as int];
                if a == j {
                    let z = h[order@[b] as int];
                    assert(order@[b] == before[b - 1]);
                    assert(order@[b] < i);
                    if b == j + 1 {
                        assert(hot_lt(x, z));
                    } else {
                        let y = h[before[j as int] as int];
                        assert(order@[j + 1] == before[j as int]);
                        assert(hot_lt(x, y));
                        assert(hot_lt(y, z));
                        lemma_hot_order(x, y, z);
                    }
                } else if b == j {
                    let w = h[order@[a] as int];
                    assert(order@[a] == before[a]);
                    assert(order@[a] < i);
                    assert(!hot_lt(x, w));
                    lemma_hot_order(x, w, x);
                    assert(w.path@ != x.path@);
                } else {
                    let a0 = if a < j { a } else { a - 1 };
                    let b0 = if b < j { b } else { b - 1 };
                    assert(order@[a] == before[a0] && order@[b] == before[b0]);
                    assert(a0 < b0);
                }
            }
        }
        i = i + 1;
    }
    order
}

/// The hotspot of `p` among `fs`, in its parts.
pub open spec fn hotspot_of(fs: Seq<Finding>, h: Hotspot) -> bool {
    &&& finding_paths(fs).contains(h.path@)
    &&& h.groups == path_groups(fs, h.path@)
    &&& h.occurrences == path_hits(fs, h.path@)
}

/// The listed hotspots are the first of all files with duplicates in
/// hotspot order: at most `HOTSPOT_LIMIT`, each file's own counts,
/// strictly ordered, and ranking before every file left out.
pub open spec fn top_hotspots(fs: Seq<Finding>, spots: Seq<Hotspot>) -> bool {
    &&& spots.len() == (if finding_paths(fs).len() < HOTSPOT_LIMIT {
        finding_paths(fs).len()
    } else {
        HOTSPOT_LIMIT as nat
    })
    &&& forall|k: int| 0 <= k < spots.len() ==> hotspot_of(fs, #[trigger] spots[k])
    &&& forall|a: int, b: int| 0 <= a < b < spots.len() ==> hot_lt(#[trigger] spots[a], #[trigger] spots[b])
    &&& forall|p: Seq<char>|
        #[trigger] finding_paths(fs).contains(p) && (forall|k: int| 0 <= k < spots.len() ==> spots[k].path@ != p)
            ==> ranks_before(
            spots.last().groups as int,
            spots.last().occurrences as int,
            spots.last().path@,
            path_groups(fs, p) as int,
            path_hits(fs, p) as int,
            p,
        )
}

proof fn lemma_listed_len(paths: Seq<String>, fs: Seq<Finding>)
    requires
        distinct_texts(paths),
        forall|p: Seq<char>| listed(paths, p) <==> finding_paths(fs).contains(p),
    ensures
        finding_paths(fs).finite(),
        finding_paths(fs).len() == paths.len(),
{
    let views = paths.map_values(|s: String| s@);
    assert(views.no_duplicates()) by {
        assert forall|a: int, b: int| 0 <= a < views.len() && 0 <= b < views.len() && a != b implies views[a] != views[b] by {
            if a < b {
                assert(paths[a]@ != paths[b]@);
            } else {
                assert(paths[b]@ != paths[a]@);
            }
        }
    }
    views.unique_seq_to_set();
    assert(views.to_set() =~= finding_paths(fs)) by {
        assert forall|p: Seq<char>| views.to_set().contains(p) <==> finding_paths(fs).contains(p) by {
            if views.to_set().contains(p) {
                let k = choose|k: int| 0 <= k < views.len() && views[k] == p;
                assert(paths[k]@ == p);
                assert(listed(paths, p));
            }
            if finding_paths(fs).contains(p) {
                assert(listed(paths, p));
                let k = choose|k: int| 0 <= k < paths.len() && (#[trigger] paths[k])@ == p;
                assert(views[k] == p);
                assert(views.contains(p));
            }
        }
    }
}

/// The first hotspots, in hotspot order, of the files with duplicates.
fn select_hotspots(findings: &Vec<Finding>) -> (selected: (u64, Vec<Hotspot>))
    requires
        findings@.len() <= u64::MAX,
        location_total(findings@) <= u64::MAX,
    ensures
        selected.0 == finding_paths(findings@).len(),
        top_hotspots(findings@, selected.1@),
{
    let paths = distinct_paths(findings);
    proof {
        lemma_listed_len(paths@, findings@);
    }
    let mut spots: Vec<Hotspot> = Vec::new();
    let mut k: usize = 0;
    while k < paths.len()
        invariant
            k <= paths@.len(),
            findings@.len() <= u64::MAX,
            location_total(findings@) <= u64::MAX,
            distinct_texts(paths@),
            forall|p: Seq<char>| listed(paths@, p) <==> finding_paths(findings@).contains(p),
            spots@.len() == k,
            forall|t: int| 0 <= t < k ==> (#[trigger] spots@[t]).path@ == paths@[t]@ && hotspot_of(findings@, spots@[t]),
        decreases paths@.len() - k,
    {
        let (groups, hits) = path_counts(findings, paths[k].as_str());
        proof {
            assert(listed(paths@, paths@[k as int]@));
        }
        spots.push(Hotspot { path: paths[k].clone(), groups, occurrences: hits });
        k = k + 1;
    }
    let order = hotspot_order(&spots);
    let count = if spots.len() < HOTSPOT_LIMIT {
        spots.len()
    } else {
        HOTSPOT_LIMIT
    };
    let mut top: Vec<Hotspot> = Vec::new();
    let mut r: usize = 0;
    while r < count
        invariant
            count <= spots@.len(),
            order@.len() == spots@.len(),
            forall|t: int| 0 <= t < order@.len() ==> #[trigger] order@[t] < spots@.len(),
            r <= count,
            top@.len() == r,
            forall|t: int| 0 <= t < r ==> #[trigger] top@[t] == spots@[order@[t] as int],
        decreases count - r,
    {
        let spot = &spots[order[r]];
        top.push(Hotspot { path: spot.path.clone(), groups: spot.groups, occurrences: spot.occurrences });
        r = r + 1;
    }
    proof {
        let fs = findings@;
        assert forall|t: int| 0 <= t < top@.len() implies hotspot_of(fs, #[trigger] top@[t]) by {
            assert(top@[t] == spots@[order@[t] as int]);
        }
        assert forall|a: int, b: int| 0 <= a < b < top@.len() implies hot_lt(#[trigger] top@[a], #[trigger] top@[b]) by {
            assert(top@[a] == spots@[order@[a] as int] && top@[b] == spots@[order@[b] as int]);
        }
        assert forall|p: Seq<char>|
            #[trigger] finding_paths(fs).contains(p) && (forall|k: int| 0 <= k < top@.len() ==> top@[k].path@ != p)
                implies ranks_before(
            top@.last().groups as int,
            top@.last().occurrences as int,
            top@.last().path@,
            path_groups(fs, p) as int,
            path_hits(fs, p) as int,
            p,
        ) by {
            assert(listed(paths@, p));
            let k = choose|k: int| 0 <= k < paths@.len() && (#[trigger] paths@[k])@ == p;
            crate::order::lemma_indices_cover(order@, spots@.len() as int, k);
            let r = choose|r: int| 0 <= r < order@.len() && order@[r] == k;
            if r < count {
                assert(top@[r] == spots@[k]);
                assert(top@[r].path@ == p);
            }
            assert(r >= count);
            let last = count - 1;
            assert(top@[last as int] == spots@[order@[last as int] as int]);
            assert(hot_lt(spots@[order@[last as int] as int], spots@[order@[r] as int]));
            assert(spots@[k].path@ == p);
        }
    }
    (paths.len() as u64, top)
}

/// The overview of `report`: its counts, the breakdowns of its findings
/// by context, scope and distribution, and the files with the most
/// duplicates.
pub fn build_summary(report: &Report) -> (summary: Summary)
    requires
        occurrence_total(report.findings@) <= u64::MAX,
        location_total(report.findings@) <= u64::MAX,
        report.findings@.len() <= u64::MAX,
    ensures
        summary.files == report.files,
        summary.source_lines == report.source_lines,
        summary.analyzed_lines == report.analyzed_lines,
        summary.duplicate_groups == report.duplicate_groups,
        summary.duplicate_lines == report.duplicate_lines,
        summary.occurrences == occurrence_total(report.findings@),
        summary.context == (ContextSummary {
            executable: count_context(report.findings@, FindingContext::Executable) as u64,
            declarative: count_context(report.findings@, FindingContext::Declarative) as u64,
            mixed: count_context(report.findings@, FindingContext::Mixed) as u64,
        }),
        summary.scope == (ScopeSummary {
            function: count_scope(report.findings@, FindingScope::Function) as u64,
            module: count_scope(report.findings@, FindingScope::Module) as u64,
            class: count_scope(report.findings@, FindingScope::Class) as u64,
            mixed: count_scope(report.findings@, FindingScope::Mixed) as u64,
        }),
        summary.distribution == (DistributionSummary {
            cross_file: count_distribution(report.findings@, FindingDistribution::CrossFile) as u64,
            same_file: count_distribution(report.findings@, FindingDistribution::SameFile) as u64,
            mixed: count_distribution(report.findings@, FindingDistribution::Mixed) as u64,
        }),
        summary.files_with_duplicates == finding_paths(report.findings@).len(),
        top_hotspots(report.findings@, summary.hotspots@),
{
    let (context, scope, distribution, occurrences) = breakdowns(&report.findings);
    let (files_with_duplicates, hotspots) = select_hotspots(&report.findings);
    Summary {
        files: report.files,
        files_with_duplicates,
        source_lines: report.source_lines,
        analyzed_lines: report.analyzed_lines,
        duplicate_groups: report.duplicate_groups,
        occurrences,
        duplicate_lines: report.duplicate_lines,
        context,
        scope,
        distribution,
        hotspots,
    }
}

} // verus!
