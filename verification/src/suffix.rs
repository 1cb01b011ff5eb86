use vstd::prelude::*;
use vstd::set_lib::*;

use crate::model::{CorpusPos, CorpusToken};
use crate::order::{lemma_pair_key, pair_key, sort_by_key, sorted_by_key};

verus! {

/// Why a suffix or LCP array could not be built.
#[derive(Debug, Clone, Copy, PartialEq, Eq, Structural)]
pub enum SuffixError {
    TooLarge,
    InvalidLength { expected: usize, actual: usize },
    InvalidPosition { position: CorpusPos, length: usize },
    DuplicatePosition(CorpusPos),
}

/// Number of leading tokens shared by the suffixes of `s` starting at `i`
/// and at `j`.
pub open spec fn lcp_len(s: Seq<u32>, i: int, j: int) -> nat
    decreases s.len() - i,
{
    if 0 <= i < s.len() && 0 <= j < s.len() && s[i] == s[j] {
        1 + lcp_len(s, i + 1, j + 1)
    } else {
        0
    }
}

/// The suffix of `s` at `i` sorts strictly before the suffix at `j`.
pub open spec fn suffix_lt(s: Seq<u32>, i: int, j: int) -> bool {
    let h = lcp_len(s, i, j);
    ||| i + h == s.len() && j + h < s.len()
    ||| i + h < s.len() && j + h < s.len() && s[i + h] < s[j + h]
}

/// `sa` holds every position of `s` exactly once.
pub open spec fn is_permutation(s: Seq<u32>, sa: Seq<u32>) -> bool {
    &&& sa.len() == s.len()
    &&& forall|r: int| 0 <= r < sa.len() ==> #[trigger] sa[r] < s.len()
    &&& sa.no_duplicates()
}

/// `sa` lists positions of `s` in strictly increasing suffix order.
pub open spec fn is_sorted_suffixes(s: Seq<u32>, sa: Seq<u32>) -> bool {
    forall|a: int, b: int|
        0 <= a < b < sa.len() ==> suffix_lt(s, #[trigger] sa[a] as int, #[trigger] sa[b] as int)
}

/// `sa` is the suffix array of `s`.
pub open spec fn is_suffix_array(s: Seq<u32>, sa: Seq<u32>) -> bool {
    is_permutation(s, sa) && is_sorted_suffixes(s, sa)
}

// ----------------------------------------------------------------------
// Facts about the lexicographic order of suffixes.
proof fn lemma_lcp_bounds(s: Seq<u32>, i: int, j: int)
    requires
        0 <= i,
        0 <= j,
    ensures
        i + lcp_len(s, i, j) <= s.len() || lcp_len(s, i, j) == 0,
        j + lcp_len(s, i, j) <= s.len() || lcp_len(s, i, j) == 0,
        lcp_len(s, i, j) > 0 ==> i < s.len() && j < s.len(),
    decreases s.len() - i,
{
    if 0 <= i < s.len() && 0 <= j < s.len() && s[i] == s[j] {
        lemma_lcp_bounds(s, i + 1, j + 1);
    }
}

pub proof fn lemma_lcp_symmetric(s: Seq<u32>, i: int, j: int)
    ensures
        lcp_len(s, i, j) == lcp_len(s, j, i),
    decreases s.len() - i,
{
    if 0 <= i < s.len() && 0 <= j < s.len() && s[i] == s[j] {
        lemma_lcp_symmetric(s, i + 1, j + 1);
    }
}

proof fn lemma_suffix_lt_asymmetric(s: Seq<u32>, i: int, j: int)
    requires
        0 <= i,
        0 <= j,
    ensures
        !(suffix_lt(s, i, j) && suffix_lt(s, j, i)),
{
    lemma_lcp_symmetric(s, i, j);
}

/// Dropping a shared first token keeps the order of two suffixes.
proof fn lemma_suffix_lt_shift(s: Seq<u32>, i: int, j: int)
    requires
        0 <= i,
        0 <= j,
        lcp_len(s, i, j) >= 1,
        suffix_lt(s, i, j),
    ensures
        suffix_lt(s, i + 1, j + 1),
        lcp_len(s, i + 1, j + 1) == lcp_len(s, i, j) - 1,
{
}

/// Every value below `n` occurs in a duplicate-free sequence of `n` values
/// below `n`.
pub proof fn lemma_permutation_covers(sa: Seq<u32>, n: int, v: int)
    requires
        sa.len() == n,
        forall|r: int| 0 <= r < sa.len() ==> #[trigger] sa[r] < n,
        sa.no_duplicates(),
        0 <= v < n,
    ensures
        exists|r: int| 0 <= r < sa.len() && sa[r] == v,
{
    let m = sa.map_values(|x: u32| x as int);
    assert(m.no_duplicates()) by {
        assert forall|a: int, b: int| 0 <= a < m.len() && 0 <= b < m.len() && a != b implies m[a]
            != m[b] by {
            assert(sa[a] != sa[b]);
        }
    }
    m.unique_seq_to_set();
    let t = m.to_set();
    lemma_int_range(0, n);
    assert(t.subset_of(set_int_range(0, n))) by {
        assert forall|x: int| t.contains(x) implies set_int_range(0, n).contains(x) by {
            let r = choose|r: int| 0 <= r < m.len() && m[r] == x;
            assert(sa[r] < n);
        }
    }
    lemma_subset_equality(t, set_int_range(0, n));
    assert(set_int_range(0, n).contains(v));
    assert(t.contains(v));
    let r = choose|r: int| 0 <= r < m.len() && m[r] == v;
    assert(sa[r] == v);
}

/// Sequences strictly ascending in suffix order that hold the same
/// positions are equal.
proof fn lemma_sorted_positions_unique(s: Seq<u32>, a: Seq<u32>, b: Seq<u32>)
    requires
        is_sorted_suffixes(s, a),
        is_sorted_suffixes(s, b),
        forall|v: u32| a.contains(v) <==> b.contains(v),
    ensures
        a == b,
    decreases a.len() + b.len(),
{
    if a.len() == 0 && b.len() > 0 {
        assert(b.contains(b[0]));
    } else if b.len() == 0 && a.len() > 0 {
        assert(a.contains(a[0]));
    } else if a.len() > 0 {
        let (na, nb) = (a.len() - 1, b.len() - 1);
        let (x, y) = (a[na], b[nb]);
        assert(a.contains(x) && b.contains(y));
        let i = choose|i: int| 0 <= i < a.len() && a[i] == y;
        let j = choose|j: int| 0 <= j < b.len() && b[j] == x;
        if x != y {
            assert(i < na && j < nb);
            assert(suffix_lt(s, a[i] as int, a[na] as int));
            assert(suffix_lt(s, b[j] as int, b[nb] as int));
            lemma_suffix_lt_asymmetric(s, x as int, y as int);
        }
        let (ia, ib) = (a.drop_last(), b.drop_last());
        assert forall|v: u32| ia.contains(v) <==> ib.contains(v) by {
            if ia.contains(v) {
                let t = choose|t: int| 0 <= t < ia.len() && ia[t] == v;
                assert(a[t] == v && suffix_lt(s, a[t] as int, a[na] as int));
                assert(b.contains(v));
                let u = choose|u: int| 0 <= u < b.len() && b[u] == v;
                if u == nb {
                    lemma_suffix_lt_asymmetric(s, v as int, v as int);
                }
                assert(ib[u] == v);
            }
            if ib.contains(v) {
                let t = choose|t: int| 0 <= t < ib.len() && ib[t] == v;
                assert(b[t] == v && suffix_lt(s, b[t] as int, b[nb] as int));
                assert(a.contains(v));
                let u = choose|u: int| 0 <= u < a.len() && a[u] == v;
                if u == na {
                    lemma_suffix_lt_asymmetric(s, v as int, v as int);
                }
                assert(ia[u] == v);
            }
        }
        assert forall|p: int, q: int| 0 <= p < q < ia.len() implies suffix_lt(s, #[trigger] ia[p] as int, #[trigger] ia[q] as int) by {
            assert(ia[p] == a[p] && ia[q] == a[q]);
        }
        assert forall|p: int, q: int| 0 <= p < q < ib.len() implies suffix_lt(s, #[trigger] ib[p] as int, #[trigger] ib[q] as int) by {
            assert(ib[p] == b[p] && ib[q] == b[q]);
        }
        lemma_sorted_positions_unique(s, ia, ib);
        assert(a =~= ia.push(x));
        assert(b =~= ib.push(y));
    }
}

/// A sequence of tokens has one suffix array.
pub proof fn lemma_suffix_array_unique(s: Seq<u32>, a: Seq<u32>, b: Seq<u32>)
    requires
        is_suffix_array(s, a),
        is_suffix_array(s, b),
    ensures
        a == b,
{
    assert forall|v: u32| a.contains(v) <==> b.contains(v) by {
        if a.contains(v) {
            let t = choose|t: int| 0 <= t < a.len() && a[t] == v;
            lemma_permutation_covers(b, s.len() as int, v as int);
        }
        if b.contains(v) {
            let t = choose|t: int| 0 <= t < b.len() && b[t] == v;
            lemma_permutation_covers(a, s.len() as int, v as int);
        }
    }
    lemma_sorted_positions_unique(s, a, b);
}

// ----------------------------------------------------------------------
// Prefix doubling.

/// The suffixes at `p` and `q` already differ within their first `k`
/// tokens, and the suffix at `p` sorts first.
pub open spec fn prefix_lt(s: Seq<u32>, k: int, p: int, q: int) -> bool {
    lcp_len(s, p, q) < k && suffix_lt(s, p, q)
}

/// The suffixes at `p` and `q` agree on their first `k` tokens.
pub open spec fn prefix_eq(s: Seq<u32>, k: int, p: int, q: int) -> bool {
    lcp_len(s, p, q) >= k || p == q
}

/// `ranks` orders the positions of `s` by the first `k` tokens of their
/// suffixes.
pub open spec fn ranks_by_prefix(s: Seq<u32>, k: int, ranks: Seq<u32>) -> bool {
    &&& ranks.len() == s.len()
    &&& forall|p: int, q: int|
        0 <= p < s.len() && 0 <= q < s.len() ==> ((#[trigger] ranks[p] < #[trigger] ranks[q])
            <==> prefix_lt(s, k, p, q)) && (ranks[p] == ranks[q] <==> prefix_eq(s, k, p, q))
    &&& forall|p: int| 0 <= p < s.len() ==> #[trigger] ranks[p] < s.len()
}

/// Sort key of position `p` in the round that doubles the prefix width `k`:
/// its own rank, then the rank `k` positions further on (0 past the end).
pub open spec fn doubled_key(ranks: Seq<u32>, k: int, p: int) -> int {
    pair_key(ranks[p] as int, if p + k < ranks.len() { ranks[p + k] + 1 } else { 0 })
}

/// The positions carried by key-sorted entries.
pub open spec fn positions(sorted: Seq<(u128, u32)>) -> Seq<u32> {
    sorted.map_values(|e: (u128, u32)| e.1)
}

proof fn lemma_lcp_shift(s: Seq<u32>, p: int, q: int, k: nat)
    requires
        0 <= p,
        0 <= q,
        lcp_len(s, p, q) >= k,
    ensures
        lcp_len(s, p + k, q + k) == lcp_len(s, p, q) - k,
    decreases k,
{
    if k > 0 {
        lemma_lcp_shift(s, p + 1, q + 1, (k - 1) as nat);
    }
}

/// Ordering by first tokens is ordering by prefixes of width one.
proof fn lemma_first_tokens(s: Seq<u32>, p: int, q: int)
    requires
        0 <= p < s.len(),
        0 <= q < s.len(),
    ensures
        s[p] < s[q] <==> prefix_lt(s, 1, p, q),
        s[p] == s[q] <==> prefix_eq(s, 1, p, q),
{
    if s[p] == s[q] {
        assert(lcp_len(s, p, q) >= 1);
    } else {
        assert(lcp_len(s, p, q) == 0);
    }
}

/// Comparing doubled keys compares prefixes of twice the width.
proof fn lemma_doubling(s: Seq<u32>, k: int, ranks: Seq<u32>, p: int, q: int)
    requires
        k >= 1,
        s.len() <= u32::MAX,
        ranks_by_prefix(s, k, ranks),
        0 <= p < s.len(),
        0 <= q < s.len(),
    ensures
        doubled_key(ranks, k, p) < doubled_key(ranks, k, q) <==> prefix_lt(s, 2 * k, p, q),
        doubled_key(ranks, k, p) == doubled_key(ranks, k, q) <==> prefix_eq(s, 2 * k, p, q),
{
    let n = s.len() as int;
    let h = lcp_len(s, p, q);
    let sp: int = if p + k < n { ranks[p + k] + 1 } else { 0 };
    let sq: int = if q + k < n { ranks[q + k] + 1 } else { 0 };
    if p + k < n {
        assert(ranks[p + k] < n);
    }
    if q + k < n {
        assert(ranks[q + k] < n);
    }
    lemma_pair_key(ranks[p] as int, sp, ranks[q] as int, sq);
    lemma_lcp_bounds(s, p, q);
    assert(ranks[p] < ranks[q] <==> prefix_lt(s, k, p, q));
    assert(ranks[p] == ranks[q] <==> prefix_eq(s, k, p, q));
    if p == q {
        lemma_suffix_lt_asymmetric(s, p, p);
    } else if ranks[p] != ranks[q] {
        assert(h < k);
    } else {
        assert(h >= k);
        lemma_lcp_shift(s, p, q, k as nat);
        if p + k == n {
            assert(h == k);
        } else if q + k == n {
            assert(h == k);
        } else {
            assert(ranks[p + k] < ranks[q + k] <==> prefix_lt(s, k, p + k, q + k));
            assert(ranks[p + k] == ranks[q + k] <==> prefix_eq(s, k, p + k, q + k));
        }
    }
}

/// Distinct positions disagree within their first `n` tokens.
proof fn lemma_distinct_at_full_width(s: Seq<u32>, k: int, p: int, q: int)
    requires
        k >= s.len(),
        0 <= p < s.len(),
        0 <= q < s.len(),
        p != q,
    ensures
        !prefix_eq(s, k, p, q),
{
    lemma_lcp_bounds(s, p, q);
}

/// Entries sorted from `pairs`, whose second components are their indices,
/// are those same entries, each position once.
proof fn lemma_sorted_entries(pairs: Seq<(u128, u32)>, sorted: Seq<(u128, u32)>)
    requires
        sorted.to_multiset() == pairs.to_multiset(),
        sorted.len() == pairs.len(),
        forall|p: int| 0 <= p < pairs.len() ==> (#[trigger] pairs[p]).1 == p,
    ensures
        forall|r: int|
            0 <= r < sorted.len() ==> (#[trigger] sorted[r]).1 < pairs.len() && sorted[r]
                == pairs[sorted[r].1 as int],
        positions(sorted).no_duplicates(),
        positions(sorted).len() == sorted.len(),
        forall|r: int| 0 <= r < sorted.len() ==> #[trigger] positions(sorted)[r] < sorted.len(),
{
    broadcast use vstd::seq_lib::group_to_multiset_ensures;
    broadcast use vstd::multiset::group_multiset_axioms;

    assert forall|r: int| 0 <= r < sorted.len() implies (#[trigger] sorted[r]).1 < pairs.len()
        && sorted[r] == pairs[sorted[r].1 as int] by {
        assert(sorted.contains(sorted[r]));
        assert(sorted.to_multiset().count(sorted[r]) > 0);
        assert(pairs.contains(sorted[r]));
        let i = choose|i: int| 0 <= i < pairs.len() && pairs[i] == sorted[r];
        assert(pairs[i].1 == i);
    }
    assert(pairs.no_duplicates()) by {
        assert forall|a: int, b: int|
            0 <= a < pairs.len() && 0 <= b < pairs.len() && a != b implies pairs[a]
            != pairs[b] by {
            assert(pairs[a].1 == a && pairs[b].1 == b);
        }
    }
    pairs.lemma_multiset_has_no_duplicates();
    sorted.lemma_multiset_has_no_duplicates_conv();
    let ps = positions(sorted);
    assert forall|a: int, b: int| 0 <= a < ps.len() && 0 <= b < ps.len() && a != b implies ps[a]
        != ps[b] by {
        if ps[a] == ps[b] {
            assert(sorted[a] == pairs[sorted[a].1 as int]);
            assert(sorted[b] == pairs[sorted[b].1 as int]);
        }
    }
}

/// Ranks that follow the keys of a key-sorted permutation of positions
/// order the positions as the keys do.
proof fn lemma_ranks_follow_keys(
    s: Seq<u32>,
    k: int,
    pairs: Seq<(u128, u32)>,
    sorted: Seq<(u128, u32)>,
    ranks: Seq<u32>,
)
    requires
        pairs.len() == s.len(),
        sorted.len() == s.len(),
        ranks.len() == s.len(),
        forall|r: int|
            0 <= r < sorted.len() ==> (#[trigger] sorted[r]).1 < pairs.len() && sorted[r]
                == pairs[sorted[r].1 as int],
        positions(sorted).no_duplicates(),
        forall|r: int| 0 <= r < sorted.len() ==> #[trigger] positions(sorted)[r] < sorted.len(),
        forall|a: int, b: int|
            0 <= a < sorted.len() && 0 <= b < sorted.len() ==> ((ranks[
                #[trigger] sorted[a].1 as int] < ranks[#[trigger] sorted[b].1 as int])
                <==> sorted[a].0 < sorted[b].0) && (ranks[sorted[a].1 as int]
                == ranks[sorted[b].1 as int] <==> sorted[a].0 == sorted[b].0),
        forall|p: int, q: int|
            0 <= p < s.len() && 0 <= q < s.len() ==> ((#[trigger] pairs[p].0 < #[trigger] pairs[q].0)
                <==> prefix_lt(s, k, p, q)) && (pairs[p].0 == pairs[q].0 <==> prefix_eq(s, k, p, q)),
        forall|p: int| 0 <= p < s.len() ==> #[trigger] ranks[p] < s.len(),
    ensures
        ranks_by_prefix(s, k, ranks),
{
    let n = s.len() as int;
    let ps = positions(sorted);
    assert forall|p: int, q: int| 0 <= p < n && 0 <= q < n implies ((#[trigger] ranks[p]
        < #[trigger] ranks[q]) <==> prefix_lt(s, k, p, q)) && (ranks[p] == ranks[q]
        <==> prefix_eq(s, k, p, q)) by {
        lemma_permutation_covers(ps, n, p);
        lemma_permutation_covers(ps, n, q);
        let a = choose|r: int| 0 <= r < ps.len() && ps[r] == p;
        let b = choose|r: int| 0 <= r < ps.len() && ps[r] == q;
        assert(sorted[a].1 == p && sorted[b].1 == q);
        assert(sorted[a] == pairs[p] && sorted[b] == pairs[q]);
        assert(pairs[p].0 < pairs[q].0 <==> prefix_lt(s, k, p, q));
    }
}

/// Gives each key-sorted entry's position the number of distinct keys
/// sorted before its own, and returns the number of distinct keys.
fn assign_ranks(sorted: &Vec<(u128, u32)>, length: usize) -> (result: (Vec<u32>, usize))
    requires
        sorted@.len() == length,
        0 < length <= u32::MAX,
        sorted_by_key(sorted@),
        positions(sorted@).no_duplicates(),
        forall|r: int| 0 <= r < length ==> #[trigger] positions(sorted@)[r] < length,
    ensures
        result.0@.len() == length,
        forall|a: int, b: int|
            0 <= a < length && 0 <= b < length ==> ((result.0@[
                #[trigger] sorted@[a].1 as int] < result.0@[#[trigger] sorted@[b].1 as int])
                <==> sorted@[a].0 < sorted@[b].0) && (result.0@[sorted@[a].1 as int]
                == result.0@[sorted@[b].1 as int] <==> sorted@[a].0 == sorted@[b].0),
        forall|p: int| 0 <= p < length ==> #[trigger] result.0@[p] < length,
        result.1 == length <==> forall|a: int|
            0 <= a < length - 1 ==> #[trigger] sorted@[a].0 < sorted@[a + 1].0,
{
    let ghost ps = positions(sorted@);
    let mut ranks: Vec<u32> = vec![0u32; length];
    let mut class: usize = 0;
    proof {
        assert(ps[0] == sorted@[0].1);
    }
    ranks.set(sorted[0].1 as usize, 0u32);
    let mut r: usize = 1;
    while r < length
        invariant
            1 <= r <= length,
            length <= u32::MAX,
            sorted@.len() == length,
            ranks@.len() == length,
            sorted_by_key(sorted@),
            ps == positions(sorted@),
            ps.no_duplicates(),
            forall|t: int| 0 <= t < length ==> #[trigger] ps[t] < length,
            class < r,
            ranks@[sorted@[r - 1].1 as int] == class,
            forall|t: int| 0 <= t < length ==> #[trigger] ranks@[t] < length,
            forall|a: int| 0 <= a < r ==> ranks@[#[trigger] sorted@[a].1 as int] <= class,
            forall|a: int, b: int|
                0 <= a < r && 0 <= b < r ==> ((ranks@[#[trigger] sorted@[a].1 as int]
                    < ranks@[#[trigger] sorted@[b].1 as int]) <==> sorted@[a].0 < sorted@[b].0)
                    && (ranks@[sorted@[a].1 as int] == ranks@[sorted@[b].1 as int]
                    <==> sorted@[a].0 == sorted@[b].0),
            class + 1 == r <==> forall|a: int| 0 <= a < r - 1 ==> #[trigger] sorted@[a].0 < sorted@[a
                + 1].0,
        decreases length - r,
    {
        let ghost old_ranks = ranks@;
        let increase = sorted[r - 1].0 != sorted[r].0;
        if increase {
            class = class + 1;
        }
        let position = sorted[r].1 as usize;
        proof {
            assert(ps[r as int] == sorted@[r as int].1);
            assert forall|a: int| 0 <= a < r implies #[trigger] sorted@[a].1 != sorted@[r as int].1 by {
                assert(ps[a] == sorted@[a].1);
            }
            assert forall|a: int| 0 <= a < r implies (#[trigger] sorted@[a]).0 <= sorted@[r - 1].0 by {
                if a < r - 1 {
                    assert(sorted@[a].0 <= sorted@[r - 1].0);
                }
            }
            assert(sorted@[r - 1].0 <= sorted@[r as int].0);
        }
        ranks.set(position, class as u32);
        proof {
            assert forall|a: int| 0 <= a < r implies ranks@[#[trigger] sorted@[a].1 as int]
                == old_ranks[sorted@[a].1 as int] by {
                assert(sorted@[a].1 != sorted@[r as int].1);
                assert(ps[a] == sorted@[a].1 && ps[a] < length);
                assert(ranks@ == old_ranks.update(position as int, class as u32));
            }
            if !increase {
                assert(!(sorted@[r - 1].0 < sorted@[r as int].0));
            }
        }
        r = r + 1;
    }
    (ranks, class + 1)
}

/// The positions of key-sorted entries, in order.
fn sorted_positions(sorted: &Vec<(u128, u32)>) -> (sa: Vec<u32>)
    ensures
        sa@ == positions(sorted@),
{
    let mut sa: Vec<u32> = Vec::new();
    let mut r: usize = 0;
    while r < sorted.len()
        invariant
            r <= sorted@.len(),
            sa@ == positions(sorted@).take(r as int),
        decreases sorted@.len() - r,
    {
        sa.push(sorted[r].1);
        proof {
            assert(positions(sorted@).take(r + 1) =~= positions(sorted@).take(r as int).push(
                sorted@[r as int].1,
            ));
        }
        r = r + 1;
    }
    proof {
        assert(positions(sorted@).take(r as int) =~= positions(sorted@));
    }
    sa
}

/// Key-sorted positions whose keys strictly increase and order prefixes of
/// some width are the suffix array.
proof fn lemma_distinct_keys_sorted(s: Seq<u32>, k: int, pairs: Seq<(u128, u32)>, sorted: Seq<(u128, u32)>)
    requires
        pairs.len() == s.len(),
        sorted.len() == s.len(),
        sorted_by_key(sorted),
        forall|a: int| 0 <= a < s.len() - 1 ==> #[trigger] sorted[a].0 < sorted[a + 1].0,
        forall|r: int|
            0 <= r < sorted.len() ==> (#[trigger] sorted[r]).1 < pairs.len() && sorted[r]
                == pairs[sorted[r].1 as int],
        positions(sorted).no_duplicates(),
        forall|r: int| 0 <= r < sorted.len() ==> #[trigger] positions(sorted)[r] < sorted.len(),
        forall|p: int, q: int|
            0 <= p < s.len() && 0 <= q < s.len() ==> ((#[trigger] pairs[p].0 < #[trigger] pairs[q].0)
                <==> prefix_lt(s, k, p, q)),
    ensures
        is_suffix_array(s, positions(sorted)),
{
    let ps = positions(sorted);
    assert forall|a: int, b: int| 0 <= a < b < ps.len() implies suffix_lt(
        s,
        #[trigger] ps[a] as int,
        #[trigger] ps[b] as int,
    ) by {
        assert(sorted[a].0 < sorted[a + 1].0);
        if a + 1 < b {
            assert(sorted[a + 1].0 <= sorted[b].0);
        }
        assert(sorted[a] == pairs[ps[a] as int]);
        assert(sorted[b] == pairs[ps[b] as int]);
        assert(pairs[ps[a] as int].0 < pairs[ps[b] as int].0);
    }
}

/// Builds the suffix array of `tokens`: every position, ordered by the
/// suffix that begins there.
///
/// Construction uses prefix doubling: positions are first ranked by their
/// token, then each round sorts them by the pair of ranks at `p` and at
/// `p + width`, which ranks them by their first `2 * width` tokens, until
/// every rank is distinct.
pub fn build_suffix_array(tokens: &[CorpusToken]) -> (result: Result<Vec<CorpusPos>, SuffixError>)
    ensures
        result is Ok <==> tokens@.len() <= u32::MAX,
        result matches Ok(sa) ==> is_suffix_array(tokens@, sa@),
        result matches Err(e) ==> e == SuffixError::TooLarge,
{
    let length = tokens.len();
    if length == 0 {
        let empty: Vec<CorpusPos> = Vec::new();
        proof {
            assert(empty@.no_duplicates());
        }
        return Ok(empty);
    }
    if length > 4294967295usize {
        return Err(SuffixError::TooLarge);
    }
    let ghost s = tokens@;
    let mut pairs: Vec<(u128, u32)> = Vec::new();
    let mut p: usize = 0;
    while p < length
        invariant
            p <= length,
            length == s.len(),
            s == tokens@,
            length <= u32::MAX,
            pairs@.len() == p,
            forall|t: int| 0 <= t < p ==> (#[trigger] pairs@[t]) == (s[t] as u128, t as u32),
        decreases length - p,
    {
        pairs.push((tokens[p] as u128, p as u32));
        p = p + 1;
    }
    let sorted = sort_by_key(&pairs);
    proof {
        lemma_sorted_entries(pairs@, sorted@);
    }
    let (first_ranks, classes) = assign_ranks(&sorted, length);
    proof {
        assert forall|p: int, q: int| 0 <= p < s.len() && 0 <= q < s.len() implies ((
        #[trigger] pairs@[p].0 < #[trigger] pairs@[q].0) <==> prefix_lt(s, 1, p, q)) && (
        pairs@[p].0 == pairs@[q].0 <==> prefix_eq(s, 1, p, q)) by {
            lemma_first_tokens(s, p, q);
        }
        lemma_ranks_follow_keys(s, 1, pairs@, sorted@, first_ranks@);
    }
    if classes == length {
        proof {
            lemma_distinct_keys_sorted(s, 1, pairs@, sorted@);
        }
        return Ok(sorted_positions(&sorted));
    }
    proof {
        if length == 1 {
            assert(false);
        }
    }
    let mut ranks = first_ranks;
    let mut width: usize = 1;
    loop
        invariant
            length == s.len(),
            s == tokens@,
            1 <= width < length <= u32::MAX,
            ranks_by_prefix(s, width as int, ranks@),
        decreases length - width,
    {
        let mut pairs: Vec<(u128, u32)> = Vec::new();
        let mut p: usize = 0;
        while p < length
            invariant
                p <= length,
                length == s.len(),
                1 <= width < length <= u32::MAX,
                ranks@.len() == length,
                forall|t: int| 0 <= t < length ==> #[trigger] ranks@[t] < length,
                pairs@.len() == p,
                forall|t: int|
                    0 <= t < p ==> (#[trigger] pairs@[t]).1 == t && pairs@[t].0 == doubled_key(
                        ranks@,
                        width as int,
                        t,
                    ),
            decreases length - p,
        {
            let second: u128 = if p < length - width {
                proof {
                    assert(ranks@[p + width] < length);
                }
                ranks[p + width] as u128 + 1
            } else {
                0
            };
            proof {
                assert(ranks@[p as int] < length);
            }
            let key: u128 = ranks[p] as u128 * 4294967296u128 + second;
            pairs.push((key, p as u32));
            p = p + 1;
        }
        let sorted = sort_by_key(&pairs);
        proof {
            lemma_sorted_entries(pairs@, sorted@);
        }
        let (next_ranks, classes) = assign_ranks(&sorted, length);
        proof {
            assert forall|p: int, q: int| 0 <= p < s.len() && 0 <= q < s.len() implies ((
            #[trigger] pairs@[p].0 < #[trigger] pairs@[q].0) <==> prefix_lt(s, 2 * width, p, q))
                && (pairs@[p].0 == pairs@[q].0 <==> prefix_eq(s, 2 * width, p, q)) by {
                lemma_doubling(s, width as int, ranks@, p, q);
            }
            lemma_ranks_follow_keys(s, 2 * width, pairs@, sorted@, next_ranks@);
        }
        if classes == length {
            proof {
                lemma_distinct_keys_sorted(s, 2 * width, pairs@, sorted@);
            }
            return Ok(sorted_positions(&sorted));
        }
        proof {
            if 2 * width >= length {
                assert forall|a: int| 0 <= a < length - 1 implies #[trigger] sorted@[a].0 < sorted@[a
                    + 1].0 by {
                    let pa = sorted@[a].1 as int;
                    let pb = sorted@[a + 1].1 as int;
                    assert(positions(sorted@)[a] == pa && positions(sorted@)[a + 1] == pb);
                    assert(pa != pb);
                    lemma_distinct_at_full_width(s, 2 * width, pa, pb);
                    assert(sorted@[a] == pairs@[pa] && sorted@[a + 1] == pairs@[pb]);
                    assert(sorted@[a].0 <= sorted@[a + 1].0);
                }
                assert(false);
            }
        }
        width = width * 2;
        ranks = next_ranks;
    }
}

// ----------------------------------------------------------------------
/// Builds the longest-common-prefix array for `tokens` and `suffixes`.
///
/// The suffix array must list every token position exactly once; otherwise
/// the first offending entry is reported. `lcp[0]` is zero, and for every
/// `i > 0`, `lcp[i]` is the number of leading tokens shared by the suffixes
/// at `suffixes[i - 1]` and `suffixes[i]`, whatever order `suffixes` lists
/// the positions in. Each entry is found by comparing the two suffixes
/// token by token, in time proportional to the shared prefix.
pub fn build_lcp_array(tokens: &[CorpusToken], suffixes: &[CorpusPos]) -> (result: Result<
    Vec<u32>,
    SuffixError,
>)
    ensures
        result is Ok <==> is_permutation(tokens@, suffixes@),
        suffixes@.len() != tokens@.len() ==> result == Err::<Vec<u32>, SuffixError>(
            SuffixError::InvalidLength { expected: tokens@.len() as usize, actual: suffixes@.len() as usize },
        ),
        result matches Err(SuffixError::InvalidLength { expected, actual }) ==> expected
            == tokens@.len() && actual == suffixes@.len() && actual != expected,
        result matches Err(SuffixError::InvalidPosition { position, length }) ==> length
            == tokens@.len() && position >= length && suffixes@.contains(position),
        result matches Err(SuffixError::DuplicatePosition(position)) ==> exists|a: int, b: int|
            0 <= a < b < suffixes@.len() && suffixes@[a] == position && suffixes@[b] == position,
        !(result matches Err(SuffixError::TooLarge)),
        result matches Ok(lcp) ==> {
            &&& lcp@.len() == tokens@.len()
            &&& lcp@.len() > 0 ==> lcp@[0] == 0
            &&& forall|i: int|
                0 < i < lcp@.len() ==> #[trigger] lcp@[i] == lcp_len(
                    tokens@,
                    suffixes@[i - 1] as int,
                    suffixes@[i] as int,
                )
        },
{
    let length = tokens.len();
    if suffixes.len() != length {
        return Err(SuffixError::InvalidLength { expected: length, actual: suffixes.len() });
    }
    if length == 0 {
        return Ok(Vec::new());
    }
    let ghost s = tokens@;
    let ghost sa = suffixes@;
    let mut ranks: Vec<usize> = vec![usize::MAX; length];
    let mut rank: usize = 0;
    while rank < length
        invariant
            length == tokens@.len(),
            length == suffixes@.len(),
            s == tokens@,
            sa == suffixes@,
            rank <= length,
            ranks@.len() == length,
            forall|r: int| 0 <= r < rank ==> #[trigger] sa[r] < length,
            forall|r: int| 0 <= r < rank ==> #[trigger] ranks@[sa[r] as int] == r,
            forall|i: int|
                0 <= i < length && ranks@[i] != usize::MAX ==> ranks@[i] < rank && sa[
                    ranks@[i] as int] == i,
            forall|a: int, b: int| 0 <= a < b < rank ==> sa[a] != sa[b],
        decreases length - rank,
    {
        let position = suffixes[rank];
        let index = position as usize;
        if index >= length {
            proof {
                assert(sa[rank as int] == position);
            }
            return Err(SuffixError::InvalidPosition { position, length });
        }
        if ranks[index] != usize::MAX {
            proof {
                let a = ranks@[index as int] as int;
                assert(sa[a] == position && sa[rank as int] == position);
            }
            return Err(SuffixError::DuplicatePosition(position));
        }
        ranks.set(index, rank);
        rank = rank + 1;
    }
    proof {
        assert(sa.no_duplicates()) by {
            assert forall|a: int, b: int| 0 <= a < sa.len() && 0 <= b < sa.len() && a != b implies sa[a]
                != sa[b] by {
                if a < b {
                } else {
                }
            }
        }
        assert(is_permutation(s, sa));
        lemma_permutation_covers(sa, length as int, (length - 1) as int);
    }
    let mut lcp: Vec<u32> = vec![0u32; length];
    let mut i: usize = 1;
    while i < length
        invariant
            length == tokens@.len(),
            length == suffixes@.len(),
            length - 1 <= u32::MAX,
            s == tokens@,
            sa == suffixes@,
            is_permutation(s, sa),
            1 <= i <= length,
            lcp@.len() == length,
            lcp@[0] == 0,
            forall|j: int| 0 < j < i ==> #[trigger] lcp@[j] == lcp_len(s, sa[j - 1] as int, sa[j] as int),
        decreases length - i,
    {
        let a = suffixes[i - 1] as usize;
        let b = suffixes[i] as usize;
        proof {
            assert(sa[i - 1] < length && sa[i as int] < length);
            assert(sa[i - 1] != sa[i as int]);
        }
        let mut common: usize = 0;
        while a + common < length && b + common < length && tokens[a + common] == tokens[b + common]
            invariant
                length == tokens@.len(),
                s == tokens@,
                a < length,
                b < length,
                a + common <= length,
                b + common <= length,
                lcp_len(s, a as int, b as int) == common + lcp_len(s, a + common, b + common),
            decreases length - common,
        {
            common = common + 1;
        }
        proof {
            assert(lcp_len(s, a + common, b + common) == 0);
        }
        let ghost before = lcp@;
        lcp.set(i, common as u32);
        proof {
            assert forall|j: int| 0 < j < i + 1 implies #[trigger] lcp@[j] == lcp_len(s, sa[j - 1] as int, sa[j] as int) by {
                if j < i {
                    assert(lcp@[j] == before[j]);
                }
            }
        }
        i = i + 1;
    }
    Ok(lcp)
}

} // verus!
