use vstd::prelude::*;
use vstd::set_lib::*;
use vstd::string::StringSliceAdditionalSpecFns;

verus! {

/// Outcome of comparing two byte strings.
#[derive(Debug, Clone, Copy, PartialEq, Eq, Structural)]
pub enum Comparison {
    Less,
    Equal,
    Greater,
}

/// Strict lexicographic order on byte strings (a proper prefix sorts first).
pub open spec fn bytes_lt(a: Seq<u8>, b: Seq<u8>) -> bool
    decreases a.len(),
{
    if a.len() == 0 {
        b.len() > 0
    } else if b.len() == 0 {
        false
    } else if a[0] != b[0] {
        a[0] < b[0]
    } else {
        bytes_lt(a.drop_first(), b.drop_first())
    }
}

pub open spec fn bytes_le(a: Seq<u8>, b: Seq<u8>) -> bool {
    bytes_lt(a, b) || a == b
}

pub proof fn lemma_bytes_lt_irreflexive(a: Seq<u8>)
    ensures
        !bytes_lt(a, a),
    decreases a.len(),
{
    if a.len() > 0 {
        lemma_bytes_lt_irreflexive(a.drop_first());
    }
}

pub proof fn lemma_bytes_lt_transitive(a: Seq<u8>, b: Seq<u8>, c: Seq<u8>)
    requires
        bytes_lt(a, b),
        bytes_lt(b, c),
    ensures
        bytes_lt(a, c),
    decreases a.len(),
{
    if a.len() > 0 && b.len() > 0 && c.len() > 0 && a[0] == b[0] && b[0] == c[0] {
        lemma_bytes_lt_transitive(a.drop_first(), b.drop_first(), c.drop_first());
    }
}

pub proof fn lemma_bytes_lt_total(a: Seq<u8>, b: Seq<u8>)
    ensures
        bytes_lt(a, b) || bytes_lt(b, a) || a == b,
    decreases a.len(),
{
    if a.len() > 0 && b.len() > 0 && a[0] == b[0] {
        lemma_bytes_lt_total(a.drop_first(), b.drop_first());
        if a.drop_first() == b.drop_first() {
            assert(a =~= seq![a[0]] + a.drop_first());
            assert(b =~= seq![b[0]] + b.drop_first());
        }
    } else if a.len() == 0 && b.len() == 0 {
        assert(a =~= b);
    }
}

pub proof fn lemma_bytes_lt_asymmetric(a: Seq<u8>, b: Seq<u8>)
    ensures
        !(bytes_lt(a, b) && bytes_lt(b, a)),
{
    if bytes_lt(a, b) && bytes_lt(b, a) {
        lemma_bytes_lt_transitive(a, b, a);
        lemma_bytes_lt_irreflexive(a);
    }
}

/// Compares two byte strings lexicographically.
pub fn compare_bytes(a: &[u8], b: &[u8]) -> (result: Comparison)
    ensures
        result == Comparison::Less <==> bytes_lt(a@, b@),
        result == Comparison::Equal <==> a@ == b@,
        result == Comparison::Greater <==> bytes_lt(b@, a@),
{
    let mut i: usize = 0;
    while i < a.len() && i < b.len() && a[i] == b[i]
        invariant
            i <= a.len(),
            i <= b.len(),
            a@.subrange(0, i as int) == b@.subrange(0, i as int),
        decreases a.len() - i,
    {
        proof {
            assert(a@.subrange(0, i + 1) =~= a@.subrange(0, i as int).push(a@[i as int]));
            assert(b@.subrange(0, i + 1) =~= b@.subrange(0, i as int).push(b@[i as int]));
        }
        i = i + 1;
    }
    proof {
        lemma_bytes_lt_split(a@, b@, i as int);
        lemma_bytes_lt_split(b@, a@, i as int);
        lemma_bytes_lt_asymmetric(a@, b@);
        lemma_bytes_lt_irreflexive(a@);
    }
    if i < a.len() && i < b.len() {
        if a[i] < b[i] {
            Comparison::Less
        } else {
            Comparison::Greater
        }
    } else if i < b.len() {
        Comparison::Less
    } else if i < a.len() {
        Comparison::Greater
    } else {
        proof {
            assert(a@ =~= a@.subrange(0, i as int));
            assert(b@ =~= b@.subrange(0, i as int));
        }
        Comparison::Equal
    }
}

/// After a common prefix of length `i`, the order is decided at index `i`.
proof fn lemma_bytes_lt_split(a: Seq<u8>, b: Seq<u8>, i: int)
    requires
        0 <= i <= a.len(),
        i <= b.len(),
        a.subrange(0, i) == b.subrange(0, i),
        i < a.len() && i < b.len() ==> a[i] != b[i],
    ensures
        i < a.len() && i < b.len() ==> (bytes_lt(a, b) <==> a[i] < b[i]),
        i == a.len() && i < b.len() ==> bytes_lt(a, b),
        i == b.len() ==> !bytes_lt(a, b),
    decreases i,
{
    if i > 0 {
        assert(a[0] == a.subrange(0, i)[0]);
        assert(b[0] == b.subrange(0, i)[0]);
        assert(a.drop_first().subrange(0, i - 1) =~= a.subrange(0, i).drop_first());
        assert(b.drop_first().subrange(0, i - 1) =~= b.subrange(0, i).drop_first());
        lemma_bytes_lt_split(a.drop_first(), b.drop_first(), i - 1);
    }
}

/// Two numbers below 2^64 packed into one integer, the first one high.
pub open spec fn wide_pair_key(first: int, second: int) -> int {
    first * 18446744073709551616 + second
}

pub proof fn lemma_wide_pair_key(a1: int, b1: int, a2: int, b2: int)
    requires
        0 <= b1 < 18446744073709551616,
        0 <= b2 < 18446744073709551616,
    ensures
        wide_pair_key(a1, b1) < wide_pair_key(a2, b2) <==> (a1 < a2 || (a1 == a2 && b1 < b2)),
        wide_pair_key(a1, b1) == wide_pair_key(a2, b2) <==> (a1 == a2 && b1 == b2),
{
    if a1 < a2 {
        assert(a1 * 18446744073709551616 + 18446744073709551616 <= a2 * 18446744073709551616) by (nonlinear_arith)
            requires
                a1 < a2,
        ;
    }
    if a2 < a1 {
        assert(a2 * 18446744073709551616 + 18446744073709551616 <= a1 * 18446744073709551616) by (nonlinear_arith)
            requires
                a2 < a1,
        ;
    }
}

/// Two numbers below 2^32 packed into one integer, the first one high.
pub open spec fn pair_key(first: int, second: int) -> int {
    first * 4294967296 + second
}

pub proof fn lemma_pair_key(a1: int, b1: int, a2: int, b2: int)
    requires
        0 <= b1 < 4294967296,
        0 <= b2 < 4294967296,
    ensures
        pair_key(a1, b1) < pair_key(a2, b2) <==> (a1 < a2 || (a1 == a2 && b1 < b2)),
        pair_key(a1, b1) == pair_key(a2, b2) <==> (a1 == a2 && b1 == b2),
{
    if a1 < a2 {
        assert(a1 * 4294967296 + 4294967296 <= a2 * 4294967296) by (nonlinear_arith)
            requires
                a1 < a2,
        ;
    }
    if a2 < a1 {
        assert(a2 * 4294967296 + 4294967296 <= a1 * 4294967296) by (nonlinear_arith)
            requires
                a2 < a1,
        ;
    }
}

/// `items` is sorted by the first component of each pair.
pub open spec fn sorted_by_key<T>(items: Seq<(u128, T)>) -> bool {
    forall|a: int, b: int| 0 <= a < b < items.len() ==> (#[trigger] items[a]).0 <= (#[trigger] items[b]).0
}

proof fn lemma_take_push<T>(s: Seq<T>, i: int)
    requires
        0 <= i < s.len(),
    ensures
        s.take(i + 1) == s.take(i).push(s[i]),
{
    assert(s.take(i + 1) =~= s.take(i).push(s[i]));
}

/// Merges two key-sorted runs into one.
fn merge_runs<T: Copy>(left: Vec<(u128, T)>, right: Vec<(u128, T)>) -> (merged: Vec<(u128, T)>)
    requires
        sorted_by_key(left@),
        sorted_by_key(right@),
    ensures
        sorted_by_key(merged@),
        merged@.to_multiset() == left@.to_multiset().add(right@.to_multiset()),
{
    broadcast use vstd::seq_lib::group_to_multiset_ensures;
    let mut merged: Vec<(u128, T)> = Vec::new();
    let mut i: usize = 0;
    let mut j: usize = 0;
    while i < left.len() || j < right.len()
        invariant
            i <= left@.len(),
            j <= right@.len(),
            sorted_by_key(left@),
            sorted_by_key(right@),
            sorted_by_key(merged@),
            merged@.to_multiset() == left@.take(i as int).to_multiset().add(
                right@.take(j as int).to_multiset(),
            ),
            merged@.len() > 0 && i < left@.len() ==> merged@.last().0 <= left@[i as int].0,
            merged@.len() > 0 && j < right@.len() ==> merged@.last().0 <= right@[j as int].0,
        decreases left@.len() - i + right@.len() - j,
    {
        let take_left = if i < left.len() && j < right.len() {
            left[i].0 <= right[j].0
        } else {
            i < left.len()
        };
        let ghost before = merged@;
        if take_left {
            merged.push(left[i]);
            proof {
                lemma_take_push(left@, i as int);
                let lt = left@.take(i as int);
                let rt = right@.take(j as int);
                before.to_multiset_ensures();
                lt.to_multiset_ensures();
                assert(before.push(left@[i as int]).to_multiset() =~= before.to_multiset().insert(left@[i as int]));
                assert(lt.push(left@[i as int]).to_multiset() =~= lt.to_multiset().insert(left@[i as int]));
                assert(merged@.to_multiset() =~= lt.push(left@[i as int]).to_multiset().add(rt.to_multiset()));
            }
            i = i + 1;
        } else {
            merged.push(right[j]);
            proof {
                lemma_take_push(right@, j as int);
                let lt = left@.take(i as int);
                let rt = right@.take(j as int);
                before.to_multiset_ensures();
                rt.to_multiset_ensures();
                assert(before.push(right@[j as int]).to_multiset() =~= before.to_multiset().insert(right@[j as int]));
                assert(rt.push(right@[j as int]).to_multiset() =~= rt.to_multiset().insert(right@[j as int]));
                assert(merged@.to_multiset() =~= lt.to_multiset().add(rt.push(right@[j as int]).to_multiset()));
            }
            j = j + 1;
        }
        proof {
            assert forall|a: int, b: int| 0 <= a < b < merged@.len() implies (#[trigger] merged@[a]).0
                <= (#[trigger] merged@[b]).0 by {
                if b == merged@.len() - 1 && a < b {
                    assert(merged@[a] == before[a]);
                    assert(before[a].0 <= before.last().0);
                }
            }
        }
    }
    proof {
        assert(left@.take(i as int) =~= left@);
        assert(right@.take(j as int) =~= right@);
    }
    merged
}

fn sort_range<T: Copy>(items: &Vec<(u128, T)>, low: usize, high: usize) -> (sorted: Vec<(u128, T)>)
    requires
        low <= high <= items@.len(),
    ensures
        sorted_by_key(sorted@),
        sorted@.to_multiset() == items@.subrange(low as int, high as int).to_multiset(),
    decreases high - low,
{
    broadcast use vstd::seq_lib::group_to_multiset_ensures;
    if high - low <= 1 {
        let mut out: Vec<(u128, T)> = Vec::new();
        if high > low {
            out.push(items[low]);
            proof {
                assert(items@.subrange(low as int, high as int) =~= seq![items@[low as int]]);
                assert(out@ =~= seq![items@[low as int]]);
            }
        } else {
            proof {
                assert(items@.subrange(low as int, high as int) =~= Seq::<(u128, T)>::empty());
                assert(out@ =~= Seq::<(u128, T)>::empty());
            }
        }
        return out;
    }
    let middle = low + (high - low) / 2;
    let left = sort_range(items, low, middle);
    let right = sort_range(items, middle, high);
    proof {
        vstd::seq_lib::lemma_multiset_commutative(
            items@.subrange(low as int, middle as int),
            items@.subrange(middle as int, high as int),
        );
        assert(items@.subrange(low as int, middle as int) + items@.subrange(middle as int, high as int)
            =~= items@.subrange(low as int, high as int));
    }
    merge_runs(left, right)
}

/// Sorts `(key, payload)` pairs by key in O(n log n).
pub fn sort_by_key<T: Copy>(items: &Vec<(u128, T)>) -> (sorted: Vec<(u128, T)>)
    ensures
        sorted_by_key(sorted@),
        sorted@.to_multiset() == items@.to_multiset(),
        sorted@.len() == items@.len(),
{
    let sorted = sort_range(items, 0, items.len());
    proof {
        assert(items@.subrange(0, items@.len() as int) =~= items@);
        sorted@.to_multiset_ensures();
        items@.to_multiset_ensures();
    }
    sorted
}

/// Indices carried by key-sorted entries.
pub open spec fn payloads(sorted: Seq<(u128, usize)>) -> Seq<usize> {
    sorted.map_values(|e: (u128, usize)| e.1)
}

/// Every value below `n` occurs in a duplicate-free sequence of `n` values
/// below `n`.
pub proof fn lemma_indices_cover(m: Seq<usize>, n: int, v: int)
    requires
        m.len() == n,
        forall|r: int| 0 <= r < m.len() ==> #[trigger] m[r] < n,
        m.no_duplicates(),
        0 <= v < n,
    ensures
        exists|r: int| 0 <= r < m.len() && m[r] == v,
{
    let t = m.to_set();
    m.unique_seq_to_set();
    lemma_int_range(0, n);
    let ints = t.map(|x: usize| x as int);
    assert(ints.subset_of(set_int_range(0, n)));
    lemma_map_size(t, ints, |x: usize| x as int);
    lemma_subset_equality(ints, set_int_range(0, n));
    assert(set_int_range(0, n).contains(v));
    assert(ints.contains(v));
    let x = choose|x: usize| t.contains(x) && x as int == v;
    let r = choose|r: int| 0 <= r < m.len() && m[r] == x;
    assert(m[r] == v);
}

/// Entries sorted from `pairs`, whose second components are their indices,
/// are those same entries, each index once, and every index appears.
pub proof fn lemma_sorted_indices(pairs: Seq<(u128, usize)>, sorted: Seq<(u128, usize)>)
    requires
        sorted.to_multiset() == pairs.to_multiset(),
        sorted.len() == pairs.len(),
        forall|p: int| 0 <= p < pairs.len() ==> (#[trigger] pairs[p]).1 == p,
    ensures
        forall|r: int|
            0 <= r < sorted.len() ==> (#[trigger] sorted[r]).1 < pairs.len() && sorted[r]
                == pairs[sorted[r].1 as int],
        payloads(sorted).no_duplicates(),
        forall|p: usize| p < pairs.len() ==> #[trigger] payloads(sorted).contains(p),
{
    broadcast use vstd::seq_lib::group_to_multiset_ensures;
    broadcast use vstd::multiset::group_multiset_axioms;

    assert forall|r: int| 0 <= r < sorted.len() implies (#[trigger] sorted[r]).1 < pairs.len()
        && sorted[r] == pairs[sorted[r].1 as int] by {
        assert(sorted.contains(sorted[r]));
        assert(sorted.to_multiset().count(sorted[r]) > 0);
        assert(pairs.contains(sorted[r]));
        let i = choose|i: int| 0 <= i < pairs.len() && pairs[i] == sorted[r];
        assert(pairs[i].1 == i);
    }
    assert(pairs.no_duplicates()) by {
        assert forall|a: int, b: int|
            0 <= a < pairs.len() && 0 <= b < pairs.len() && a != b implies pairs[a] != pairs[b] by {
            assert(pairs[a].1 == a && pairs[b].1 == b);
        }
    }
    pairs.lemma_multiset_has_no_duplicates();
    sorted.lemma_multiset_has_no_duplicates_conv();
    let ps = payloads(sorted);
    assert forall|a: int, b: int| 0 <= a < ps.len() && 0 <= b < ps.len() && a != b implies ps[a]
        != ps[b] by {
        if ps[a] == ps[b] {
            assert(sorted[a] == pairs[sorted[a].1 as int]);
            assert(sorted[b] == pairs[sorted[b].1 as int]);
        }
    }
    assert forall|p: usize| p < pairs.len() implies #[trigger] payloads(sorted).contains(p) by {
        assert forall|r: int| 0 <= r < ps.len() implies #[trigger] ps[r] < pairs.len() by {
            assert(sorted[r].1 < pairs.len());
        }
        lemma_indices_cover(ps, pairs.len() as int, p as int);
        let r = choose|r: int| 0 <= r < ps.len() && ps[r] == p;
        assert(ps[r] == p);
    }
}

/// Sorting keeps the entries: each sorted entry is an input entry and each
/// input entry is a sorted entry.
pub proof fn lemma_sorted_membership<T>(pairs: Seq<(u128, T)>, sorted: Seq<(u128, T)>)
    requires
        sorted.to_multiset() == pairs.to_multiset(),
    ensures
        forall|r: int| 0 <= r < sorted.len() ==> pairs.contains(#[trigger] sorted[r]),
        forall|i: int| 0 <= i < pairs.len() ==> sorted.contains(#[trigger] pairs[i]),
{
    broadcast use vstd::seq_lib::group_to_multiset_ensures;

    assert forall|r: int| 0 <= r < sorted.len() implies pairs.contains(#[trigger] sorted[r]) by {
        assert(sorted.contains(sorted[r]));
        assert(sorted.to_multiset().count(sorted[r]) > 0);
    }
    assert forall|i: int| 0 <= i < pairs.len() implies sorted.contains(#[trigger] pairs[i]) by {
        assert(pairs.contains(pairs[i]));
        assert(pairs.to_multiset().count(pairs[i]) > 0);
    }
}

/// UTF-8 bytes of a string view.
pub open spec fn text_bytes(s: Seq<char>) -> Seq<u8> {
    vstd::utf8::encode_utf8(s)
}

/// Indices of `keys` in nondecreasing order of their UTF-8 bytes, equal
/// keys in input order.
pub fn sort_indices_by_text(keys: &Vec<String>) -> (order: Vec<usize>)
    ensures
        order@.len() == keys@.len(),
        order@.no_duplicates(),
        forall|r: int| 0 <= r < order@.len() ==> #[trigger] order@[r] < keys@.len(),
        forall|a: int, b: int|
            0 <= a < b < order@.len() ==> bytes_le(
                text_bytes(keys@[#[trigger] order@[a] as int]@),
                text_bytes(keys@[#[trigger] order@[b] as int]@),
            ),
        forall|p: usize| p < keys@.len() ==> #[trigger] order@.contains(p),
{
    let mut order: Vec<usize> = Vec::new();
    let mut i: usize = 0;
    while i < keys.len()
        invariant
            i <= keys@.len(),
            order@.len() == i,
            order@.no_duplicates(),
            forall|r: int| 0 <= r < order@.len() ==> #[trigger] order@[r] < i,
            forall|a: int, b: int|
                0 <= a < b < order@.len() ==> bytes_le(
                    text_bytes(keys@[#[trigger] order@[a] as int]@),
                    text_bytes(keys@[#[trigger] order@[b] as int]@),
                ),
        decreases keys@.len() - i,
    {
        let key = keys[i].as_str().as_bytes();
        let ghost k = text_bytes(keys@[i as int]@);
        let mut j: usize = 0;
        while j < order.len() && compare_bytes(key, keys[order[j]].as_str().as_bytes()) != Comparison::Less
            invariant
                j <= order@.len(),
                key@ == k,
                forall|r: int| 0 <= r < order@.len() ==> #[trigger] order@[r] < i,
                i < keys@.len(),
                forall|r: int| 0 <= r < j ==> !bytes_lt(k, text_bytes(keys@[#[trigger] order@[r] as int]@)),
            decreases order@.len() - j,
        {
            j = j + 1;
        }
        let ghost before = order@;
        proof {
            if j < order@.len() {
                assert(bytes_lt(k, text_bytes(keys@[order@[j as int] as int]@)));
            }
        }
        order.insert(j, i);
        proof {
            assert(order@ == before.insert(j as int, i));
            assert forall|r: int| 0 <= r < order@.len() implies #[trigger] order@[r] < i + 1 by {
                if r < j {
                    assert(order@[r] == before[r]);
                } else if r > j {
                    assert(order@[r] == before[r - 1]);
                }
            }
            assert(order@.no_duplicates()) by {
                assert forall|a: int, b: int| 0 <= a < order@.len() && 0 <= b < order@.len() && a != b implies order@[a] != order@[b] by {
                    if a != j && b != j {
                        let a0 = if a < j { a } else { a - 1 };
                        let b0 = if b < j { b } else { b - 1 };
                        assert(order@[a] == before[a0] && order@[b] == before[b0]);
                    } else if a == j {
                        let b0 = if b < j { b } else { b - 1 };
                        assert(order@[b] == before[b0] && before[b0] < i);
                    } else {
                        let a0 = if a < j { a } else { a - 1 };
                        assert(order@[a] == before[a0] && before[a0] < i);
                    }
                }
            }
            assert forall|a: int, b: int| 0 <= a < b < order@.len() implies bytes_le(
                text_bytes(keys@[#[trigger] order@[a] as int]@),
                text_bytes(keys@[#[trigger] order@[b] as int]@),
            ) by {
                let ka = text_bytes(keys@[order@[a] as int]@);
                let kb = text_bytes(keys@[order@[b] as int]@);
                if a == j {
                    // the new key is below the entry now at j + 1 and so below every later one
                    assert(order@[j + 1] == before[j as int]);
                    assert(bytes_lt(k, text_bytes(keys@[before[j as int] as int]@)));
                    if b > j + 1 {
                        assert(order@[b] == before[b - 1]);
                        assert(bytes_le(
                            text_bytes(keys@[before[j as int] as int]@),
                            text_bytes(keys@[before[b - 1] as int]@),
                        ));
                        if bytes_lt(
                            text_bytes(keys@[before[j as int] as int]@),
                            text_bytes(keys@[before[b - 1] as int]@),
                        ) {
                            lemma_bytes_lt_transitive(k, text_bytes(keys@[before[j as int] as int]@), kb);
                        }
                    }
                } else if b == j {
                    // no earlier key is above the new one
                    assert(order@[a] == before[a]);
                    assert(!bytes_lt(k, ka));
                    lemma_bytes_lt_total(k, ka);
                } else {
                    let a0 = if a < j { a } else { a - 1 };
                    let b0 = if b < j { b } else { b - 1 };
                    assert(order@[a] == before[a0] && order@[b] == before[b0]);
                    assert(a0 < b0);
                }
            }
        }
        i = i + 1;
    }
    proof {
        assert forall|p: usize| p < keys@.len() implies #[trigger] order@.contains(p) by {
            lemma_indices_cover(order@, keys@.len() as int, p as int);
        }
    }
    order
}

/// `(ka, ra)` sorts strictly before `(kb, rb)`: by key bytes, then by rank.
pub open spec fn key_rank_lt(ka: Seq<u8>, ra: int, kb: Seq<u8>, rb: int) -> bool {
    bytes_lt(ka, kb) || (ka == kb && ra < rb)
}

/// `(ka, ra)` sorts no later than `(kb, rb)`.
pub open spec fn key_rank_le(ka: Seq<u8>, ra: int, kb: Seq<u8>, rb: int) -> bool {
    key_rank_lt(ka, ra, kb, rb) || (ka == kb && ra == rb)
}

proof fn lemma_key_rank_order(ka: Seq<u8>, ra: int, kb: Seq<u8>, rb: int, kc: Seq<u8>, rc: int)
    ensures
        key_rank_lt(ka, ra, kb, rb) && key_rank_le(kb, rb, kc, rc) ==> key_rank_lt(ka, ra, kc, rc),
        !key_rank_lt(ka, ra, kb, rb) ==> key_rank_le(kb, rb, ka, ra),
{
    lemma_bytes_lt_total(ka, kb);
    lemma_bytes_lt_asymmetric(ka, kb);
    lemma_bytes_lt_irreflexive(ka);
    if bytes_lt(ka, kb) && bytes_lt(kb, kc) {
        lemma_bytes_lt_transitive(ka, kb, kc);
    }
}

/// True when `(a, ra)` sorts strictly before `(b, rb)`.
fn key_rank_before(a: &[u8], ra: u128, b: &[u8], rb: u128) -> (before: bool)
    ensures
        before == key_rank_lt(a@, ra as int, b@, rb as int),
{
    let c = compare_bytes(a, b);
    c == Comparison::Less || (c == Comparison::Equal && ra < rb)
}

/// Indices of `keys` ordered by the UTF-8 bytes of the key, then by the
/// rank of the same index; entries equal in both keep their input order.
pub fn sort_indices_by_text_and_rank(keys: &Vec<String>, ranks: &Vec<u128>) -> (order: Vec<usize>)
    requires
        ranks@.len() == keys@.len(),
    ensures
        order@.len() == keys@.len(),
        order@.no_duplicates(),
        forall|r: int| 0 <= r < order@.len() ==> #[trigger] order@[r] < keys@.len(),
        forall|a: int, b: int|
            0 <= a < b < order@.len() ==> key_rank_le(
                text_bytes(keys@[#[trigger] order@[a] as int]@),
                ranks@[order@[a] as int] as int,
                text_bytes(keys@[#[trigger] order@[b] as int]@),
                ranks@[order@[b] as int] as int,
            ),
        forall|p: usize| p < keys@.len() ==> #[trigger] order@.contains(p),
{
    let mut order: Vec<usize> = Vec::new();
    let mut i: usize = 0;
    while i < keys.len()
        invariant
            ranks@.len() == keys@.len(),
            i <= keys@.len(),
            order@.len() == i,
            order@.no_duplicates(),
            forall|r: int| 0 <= r < order@.len() ==> #[trigger] order@[r] < i,
            forall|a: int, b: int|
                0 <= a < b < order@.len() ==> key_rank_le(
                    text_bytes(keys@[#[trigger] order@[a] as int]@),
                    ranks@[order@[a] as int] as int,
                    text_bytes(keys@[#[trigger] order@[b] as int]@),
                    ranks@[order@[b] as int] as int,
                ),
        decreases keys@.len() - i,
    {
        let key = keys[i].as_str().as_bytes();
        let rank = ranks[i];
        let ghost k = text_bytes(keys@[i as int]@);
        let mut j: usize = 0;
        while j < order.len() && !key_rank_before(key, rank, keys[order[j]].as_str().as_bytes(), ranks[order[j]])
            invariant
                ranks@.len() == keys@.len(),
                j <= order@.len(),
                key@ == k,
                rank == ranks@[i as int],
                forall|r: int| 0 <= r < order@.len() ==> #[trigger] order@[r] < i,
                i < keys@.len(),
                forall|r: int|
                    0 <= r < j ==> !key_rank_lt(
                        k,
                        rank as int,
                        text_bytes(keys@[#[trigger] order@[r] as int]@),
                        ranks@[order@[r] as int] as int,
                    ),
            decreases order@.len() - j,
        {
            j = j + 1;
        }
        let ghost before = order@;
        order.insert(j, i);
        proof {
            assert(order@ == before.insert(j as int, i));
            assert forall|r: int| 0 <= r < order@.len() implies #[trigger] order@[r] < i + 1 by {
                if r < j {
                    assert(order@[r] == before[r]);
                } else if r > j {
                    assert(order@[r] == before[r - 1]);
                }
            }
            assert(order@.no_duplicates()) by {
                assert forall|a: int, b: int|
                    0 <= a < order@.len() && 0 <= b < order@.len() && a != b implies order@[a] != order@[b] by {
                    if a != j && b != j {
                        let a0 = if a < j { a } else { a - 1 };
                        let b0 = if b < j { b } else { b - 1 };
                        assert(order@[a] == before[a0] && order@[b] == before[b0]);
                    } else if a == j {
                        let b0 = if b < j { b } else { b - 1 };
                        assert(order@[b] == before[b0] && before[b0] < i);
                    } else {
                        let a0 = if a < j { a } else { a - 1 };
                        assert(order@[a] == before[a0] && before[a0] < i);
                    }
                }
            }
            assert forall|a: int, b: int| 0 <= a < b < order@.len() implies key_rank_le(
                text_bytes(keys@[#[trigger] order@[a] as int]@),
                ranks@[order@[a] as int] as int,
                text_bytes(keys@[#[trigger] order@[b] as int]@),
                ranks@[order@[b] as int] as int,
            ) by {
                let ka = text_bytes(keys@[order@[a] as int]@);
                let ra = ranks@[order@[a] as int] as int;
                let kb = text_bytes(keys@[order@[b] as int]@);
                let rb = ranks@[order@[b] as int] as int;
                if a == j {
                    let kn = text_bytes(keys@[before[j as int] as int]@);
                    let rn = ranks@[before[j as int] as int] as int;
                    assert(order@[j + 1] == before[j as int]);
                    assert(key_rank_lt(k, rank as int, kn, rn));
                    if b > j + 1 {
                        assert(order@[b] == before[b - 1]);
                        assert(key_rank_le(kn, rn, kb, rb));
                        lemma_key_rank_order(k, rank as int, kn, rn, kb, rb);
                    }
                } else if b == j {
                    assert(order@[a] == before[a]);
                    assert(!key_rank_lt(k, rank as int, ka, ra));
                    lemma_key_rank_order(k, rank as int, ka, ra, ka, ra);
                } else {
                    let a0 = if a < j { a } else { a - 1 };
                    let b0 = if b < j { b } else { b - 1 };
                    assert(order@[a] == before[a0] && order@[b] == before[b0]);
                    assert(a0 < b0);
                }
            }
        }
        i = i + 1;
    }
    proof {
        assert forall|p: usize| p < keys@.len() implies #[trigger] order@.contains(p) by {
            lemma_indices_cover(order@, keys@.len() as int, p as int);
        }
    }
    order
}

/// Length of the component at the start of `p`: the bytes before the
/// first `/`.
pub open spec fn component_len(p: Seq<u8>) -> nat
    decreases p.len(),
{
    if p.len() == 0 || p[0] == 47u8 {
        0
    } else {
        1 + component_len(p.drop_first())
    }
}

/// A component is no longer than the path, and non-empty where the path
/// does not start with a separator.
pub proof fn lemma_component_len_bound(p: Seq<u8>)
    ensures
        component_len(p) <= p.len(),
        p.len() > 0 && p[0] != 47u8 ==> component_len(p) >= 1,
    decreases p.len(),
{
    if p.len() > 0 && p[0] != 47u8 {
        lemma_component_len_bound(p.drop_first());
    }
}

/// The bytes of a component name with each NUL written as NUL, 1, so
/// that NUL, NUL can end the name.
pub open spec fn escaped(c: Seq<u8>) -> Seq<u8>
    decreases c.len(),
{
    if c.len() == 0 {
        seq![]
    } else {
        escaped(c.drop_last()) + if c.last() == 0u8 {
            seq![0u8, 1u8]
        } else {
            seq![c.last()]
        }
    }
}

/// Key of one component: `.` (kept only as the first component of a
/// relative path), `..`, or a name. The leading byte orders the kinds as
/// the components of a path compare: current directory, then parent, then
/// names; a name is compared by its bytes, a shorter name first.
pub open spec fn component_key(c: Seq<u8>, first: bool) -> Seq<u8> {
    if c == seq![46u8] {
        if first {
            seq![2u8]
        } else {
            seq![]
        }
    } else if c == seq![46u8, 46u8] {
        seq![3u8]
    } else {
        seq![4u8] + escaped(c) + seq![0u8, 0u8]
    }
}

/// Keys of the components of `p`, separators and empty components skipped.
pub open spec fn components_key(p: Seq<u8>, first: bool) -> Seq<u8>
    decreases p.len(),
{
    if p.len() == 0 {
        seq![]
    } else if p[0] == 47u8 {
        components_key(p.drop_first(), first)
    } else {
        let n = component_len(p) as int;
        proof {
            lemma_component_len_bound(p);
        }
        component_key(p.take(n), first) + components_key(p.skip(n), false)
    }
}

/// Sort key of a `/`-separated path, compared bytewise the way paths compare
/// component by component: the root first, then each component's key.
/// Empty components and `.` after the first component are not
/// components, so `a/./b`, `a//b` and `a/b` have one key.
pub open spec fn path_key(p: Seq<u8>) -> Seq<u8> {
    if p.len() > 0 && p[0] == 47u8 {
        seq![1u8] + components_key(p, false)
    } else {
        components_key(p, true)
    }
}

proof fn lemma_component_len_step(p: Seq<u8>, i: int)
    requires
        0 <= i < p.len(),
        p[i] != 47u8,
    ensures
        component_len(p.skip(i)) == 1 + component_len(p.skip(i + 1)),
{
    assert(p.skip(i).drop_first() =~= p.skip(i + 1));
}

/// Computes `path_key` of the UTF-8 bytes of `path`.
pub fn path_key_bytes(path: &str) -> (key: Vec<u8>)
    ensures
        key@ == path_key(path.spec_bytes()),
{
    let bytes = path.as_bytes();
    let ghost b = bytes@;
    let n = bytes.len();
    let mut key: Vec<u8> = Vec::new();
    let absolute = n > 0 && bytes[0] == 47u8;
    if absolute {
        key.push(1u8);
    }
    let mut first = !absolute;
    let mut i: usize = 0;
    proof {
        assert(b.skip(0) =~= b);
    }
    while i < n
        invariant
            n == b.len(),
            b == bytes@,
            b == path.spec_bytes(),
            i <= n,
            path_key(b) == key@ + components_key(b.skip(i as int), first),
        decreases n - i,
    {
        if bytes[i] == 47u8 {
            proof {
                assert(b.skip(i as int).drop_first() =~= b.skip(i + 1));
            }
            i = i + 1;
        } else {
            let start = i;
            let mut end = i;
            while end < n && bytes[end] != 47u8
                invariant
                    n == b.len(),
                    b == bytes@,
                    start <= end <= n,
                    start < n,
                    b[start as int] != 47u8,
                    component_len(b.skip(start as int)) == (end - start) + component_len(b.skip(end as int)),
                decreases n - end,
            {
                proof {
                    lemma_component_len_step(b, end as int);
                }
                end = end + 1;
            }
            proof {
                if end < n {
                    assert(b.skip(end as int)[0] == b[end as int]);
                }
                assert(component_len(b.skip(end as int)) == 0);
            }
            let ghost c = b.subrange(start as int, end as int);
            proof {
                let rest = b.skip(start as int);
                assert(rest.take((end - start) as int) =~= c);
                assert(rest.skip((end - start) as int) =~= b.skip(end as int));
                assert(rest[0] == b[start as int]);
            }
            let len = end - start;
            let dot = len == 1 && bytes[start] == 46u8;
            let dots = len == 2 && bytes[start] == 46u8 && bytes[start + 1] == 46u8;
            let ghost before = key@;
            if dot {
                proof {
                    assert(c =~= seq![46u8]);
                }
                if first {
                    key.push(2u8);
                }
            } else if dots {
                proof {
                    assert(c =~= seq![46u8, 46u8]);
                }
                key.push(3u8);
            } else {
                proof {
                    assert(c != seq![46u8]) by {
                        if c == seq![46u8] {
                            assert(c.len() == 1 && c[0] == 46u8);
                        }
                    }
                    assert(c != seq![46u8, 46u8]) by {
                        if c == seq![46u8, 46u8] {
                            assert(c.len() == 2 && c[0] == 46u8 && c[1] == 46u8);
                        }
                    }
                }
                key.push(4u8);
                let mut k = start;
                while k < end
                    invariant
                        b == bytes@,
                        start <= k <= end <= n,
                        n == b.len(),
                        c == b.subrange(start as int, end as int),
                        key@ == before + seq![4u8] + escaped(c.take(k - start)),
                    decreases end - k,
                {
                    let ghost prior = key@;
                    proof {
                        assert(c.take(k + 1 - start).drop_last() =~= c.take(k - start));
                        assert(c.take(k + 1 - start).last() == b[k as int]);
                    }
                    if bytes[k] == 0u8 {
                        key.push(0u8);
                        key.push(1u8);
                    } else {
                        key.push(bytes[k]);
                    }
                    proof {
                        assert(key@ =~= before + seq![4u8] + escaped(c.take(k + 1 - start)));
                    }
                    k = k + 1;
                }
                proof {
                    assert(c.take(end - start) =~= c);
                }
                key.push(0u8);
                key.push(0u8);
            }
            proof {
                assert(key@ =~= before + component_key(c, first));
            }
            first = false;
            i = end;
        }
    }
    proof {
        assert(b.skip(n as int) =~= Seq::<u8>::empty());
        assert(key@ =~= key@ + Seq::<u8>::empty());
    }
    key
}

} // verus!
