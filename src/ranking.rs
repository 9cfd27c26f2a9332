//! Tie-averaged ranking of guides by an order key.
//!
//! A guide's measurement enters the library as an `i64` order key: two keys
//! compare exactly as the measurements they stand for. Ranks are returned
//! doubled, so that a tie-averaged rank such as 2.5 stays an integer (5).
use vstd::multiset::Multiset;
use vstd::prelude::*;

verus! {

broadcast use vstd::seq_lib::group_to_multiset_ensures, vstd::multiset::group_multiset_axioms;

/// Whether key `x` is ranked strictly ahead of key `k` in the given direction.
pub open spec fn ranks_ahead(x: i64, k: i64, higher_is_better: bool) -> bool {
    if higher_is_better {
        x > k
    } else {
        x < k
    }
}

pub open spec fn ahead_of(k: i64, higher_is_better: bool) -> spec_fn(i64) -> bool {
    |x: i64| ranks_ahead(x, k, higher_is_better)
}

pub open spec fn equal_to(k: i64) -> spec_fn(i64) -> bool {
    |x: i64| x == k
}

/// The number of keys ranked strictly ahead of `k`.
pub open spec fn count_ahead(keys: Seq<i64>, k: i64, higher_is_better: bool) -> nat {
    keys.filter(ahead_of(k, higher_is_better)).len()
}

/// The number of keys equal to `k`.
pub open spec fn count_equal(keys: Seq<i64>, k: i64) -> nat {
    keys.filter(equal_to(k)).len()
}

/// Twice the tie-averaged rank of key `k` among `keys`. The tie block of `k`
/// occupies the 1-based positions `a + 1 ..= a + e`, where `a` counts the keys
/// ranked ahead and `e` the keys equal to `k`; the mean of that span, doubled,
/// is `2a + e + 1`.
pub open spec fn doubled_rank(keys: Seq<i64>, k: i64, higher_is_better: bool) -> int {
    (2 * count_ahead(keys, k, higher_is_better) + count_equal(keys, k) + 1) as int
}

/// The doubled ranks of all keys, index-aligned with `keys`.
pub open spec fn doubled_ranks(keys: Seq<i64>, higher_is_better: bool) -> Seq<int> {
    Seq::new(keys.len(), |i: int| doubled_rank(keys, keys[i], higher_is_better))
}

pub open spec fn sum_of(s: Seq<usize>) -> int
    decreases s.len(),
{
    if s.len() == 0 {
        0
    } else {
        sum_of(s.drop_last()) + s.last()
    }
}

pub open spec fn pair_le(a: (i64, usize), b: (i64, usize)) -> bool {
    a.0 < b.0 || (a.0 == b.0 && a.1 <= b.1)
}

pub open spec fn on_key(f: spec_fn(i64) -> bool) -> spec_fn((i64, usize)) -> bool {
    |p: (i64, usize)| f(p.0)
}

proof fn lemma_filter_len_aligned<A, B>(
    s: Seq<A>,
    t: Seq<B>,
    f: spec_fn(A) -> bool,
    g: spec_fn(B) -> bool,
)
    requires
        s.len() == t.len(),
        forall|i: int| 0 <= i < s.len() ==> f(s[i]) == g(t[i]),
    ensures
        s.filter(f).len() == t.filter(g).len(),
    decreases s.len(),
{
    reveal(Seq::filter);
    if s.len() > 0 {
        let s2 = s.drop_last();
        let t2 = t.drop_last();
        assert forall|i: int| 0 <= i < s2.len() implies f(s2[i]) == g(t2[i]) by {
            assert(s2[i] == s[i] && t2[i] == t[i]);
        }
        lemma_filter_len_aligned(s2, t2, f, g);
    }
}

proof fn lemma_filter_len_interval<A>(s: Seq<A>, f: spec_fn(A) -> bool, a: int, b: int)
    requires
        0 <= a <= b <= s.len(),
        forall|i: int| 0 <= i < s.len() ==> (f(s[i]) <==> a <= i < b),
    ensures
        s.filter(f).len() == b - a,
    decreases s.len(),
{
    reveal(Seq::filter);
    if s.len() > 0 {
        let n = s.len() as int;
        let s2 = s.drop_last();
        let (a2, b2) = if b == n {
            if a == n {
                (n - 1, n - 1)
            } else {
                (a, n - 1)
            }
        } else {
            (a, b)
        };
        assert forall|i: int| 0 <= i < s2.len() implies (f(s2[i]) <==> a2 <= i < b2) by {
            assert(s2[i] == s[i]);
        }
        lemma_filter_len_interval(s2, f, a2, b2);
    }
}

proof fn lemma_filter_len_multiset<A>(s: Seq<A>, f: spec_fn(A) -> bool)
    ensures
        s.filter(f).len() == s.to_multiset().filter(f).len(),
    decreases s.len(),
{
    reveal(Seq::filter);
    if s.len() == 0 {
        assert(s.to_multiset().filter(f) =~= Multiset::empty());
    } else {
        let s2 = s.drop_last();
        let x = s.last();
        assert(s =~= s2.push(x));
        lemma_filter_len_multiset(s2, f);
        let m = s2.to_multiset();
        assert(s.to_multiset() =~= m.insert(x));
        if f(x) {
            assert(m.insert(x).filter(f) =~= m.filter(f).insert(x));
        } else {
            assert(m.insert(x).filter(f) =~= m.filter(f));
        }
    }
}

/// Moves a count over the keys to the same count over a permutation of the
/// keys paired with their positions.
proof fn lemma_count_transfer(
    keys: Seq<i64>,
    orig: Seq<(i64, usize)>,
    sorted: Seq<(i64, usize)>,
    f: spec_fn(i64) -> bool,
)
    requires
        orig.len() == keys.len(),
        forall|i: int| 0 <= i < orig.len() ==> (#[trigger] orig[i]).0 == keys[i],
        sorted.to_multiset() == orig.to_multiset(),
    ensures
        keys.filter(f).len() == sorted.filter(on_key(f)).len(),
{
    lemma_filter_len_aligned(keys, orig, f, on_key(f));
    lemma_filter_len_multiset(orig, on_key(f));
    lemma_filter_len_multiset(sorted, on_key(f));
}

proof fn lemma_sum_update(s: Seq<usize>, i: int, v: usize)
    requires
        0 <= i < s.len(),
    ensures
        sum_of(s.update(i, v)) == sum_of(s) - s[i] + v,
    decreases s.len(),
{
    let u = s.update(i, v);
    if i < s.len() - 1 {
        assert(u.drop_last() =~= s.drop_last().update(i, v));
        lemma_sum_update(s.drop_last(), i, v);
    } else {
        assert(u.drop_last() =~= s.drop_last());
    }
}

proof fn lemma_sum_zeros(s: Seq<usize>)
    requires
        forall|i: int| 0 <= i < s.len() ==> s[i] == 0,
    ensures
        sum_of(s) == 0,
    decreases s.len(),
{
    if s.len() > 0 {
        lemma_sum_zeros(s.drop_last());
    }
}

/// The sum of the doubled ranks of the first `p` positions of the sorted order.
pub open spec fn doubled_prefix_total(p: int, n: int, higher_is_better: bool) -> int {
    if higher_is_better {
        p * (2 * n - p + 1)
    } else {
        p * (p + 1)
    }
}

/// Relies on `slice::sort_unstable`: afterwards the pairs are a permutation of
/// those before, in ascending lexicographic order.
#[verifier::external_body]
fn sort_pairs(v: &mut Vec<(i64, usize)>)
    ensures
        final(v)@.to_multiset() == old(v)@.to_multiset(),
        forall|a: int, b: int|
            0 <= a < b < final(v)@.len() ==> pair_le(#[trigger] final(v)@[a], #[trigger] final(v)@[b]),
{
    v.sort_unstable();
}

/// Doubled tie-averaged ranks of `keys`, index-aligned with them: rank 1 goes
/// to the best key (the largest when `higher_is_better`, else the smallest), and
/// each run of equal keys shares the mean of the positions it spans.
pub fn compute_ranks(keys: &Vec<i64>, higher_is_better: bool) -> (ranks: Vec<usize>)
    requires
        keys.len() < usize::MAX / 2,
    ensures
        ranks@.len() == keys@.len(),
        forall|i: int|
            0 <= i < keys@.len() ==> ranks@[i] == doubled_rank(keys@, keys@[i], higher_is_better),
        forall|i: int, j: int|
            0 <= i < keys@.len() && 0 <= j < keys@.len() && keys@[i] == keys@[j] ==> ranks@[i]
                == ranks@[j],
        sum_of(ranks@) == keys@.len() * (keys@.len() + 1),
{
    let n = keys.len();
    let mut pairs: Vec<(i64, usize)> = Vec::new();
    let mut ranks: Vec<usize> = Vec::new();
    let mut i: usize = 0;
    while i < n
        invariant
            i <= n,
            n == keys@.len(),
            pairs@.len() == i,
            ranks@.len() == i,
            forall|j: int| 0 <= j < i ==> pairs@[j] == (keys@[j], j as usize),
            forall|j: int| 0 <= j < i ==> ranks@[j] == 0,
        decreases n - i,
    {
        pairs.push((keys[i], i));
        ranks.push(0);
        i += 1;
    }
    let ghost orig = pairs@;
    proof {
        lemma_sum_zeros(ranks@);
        assert(orig.no_duplicates());
        orig.lemma_multiset_has_no_duplicates();
    }
    sort_pairs(&mut pairs);
    let ghost s = pairs@;
    proof {
        assert(s.len() == s.to_multiset().len());
        assert(orig.len() == orig.to_multiset().len());
        assert forall|p: int| 0 <= p < n implies (#[trigger] s[p]).1 < n && s[p].0 == keys@[s[p].1 as int] by {
            assert(s.to_multiset().count(s[p]) > 0);
            assert(orig.contains(s[p]));
        }
        s.lemma_multiset_has_no_duplicates_conv();
        assert forall|p: int, q: int| 0 <= p < n && 0 <= q < n && p != q implies (#[trigger] s[p]).1
            != (#[trigger] s[q]).1 by {
            if s[p].1 == s[q].1 {
                assert(s[p] == s[q]);
            }
        }
        assert forall|j: int| 0 <= j < n implies s.contains(#[trigger] orig[j]) by {
            assert(orig.to_multiset().count(orig[j]) > 0);
        }
    }
    let mut start: usize = 0;
    while start < n
        invariant
            start <= n,
            n == keys@.len(),
            n < usize::MAX / 2,
            pairs@ == s,
            s.len() == n,
            orig.len() == n,
            forall|j: int| 0 <= j < n ==> #[trigger] orig[j] == (keys@[j], j as usize),
            forall|j: int| 0 <= j < n ==> s.contains(#[trigger] orig[j]),
            s.to_multiset() == orig.to_multiset(),
            forall|a: int, b: int| 0 <= a < b < n ==> pair_le(#[trigger] s[a], #[trigger] s[b]),
            forall|p: int| 0 <= p < n ==> (#[trigger] s[p]).1 < n && s[p].0 == keys@[s[p].1 as int],
            forall|p: int, q: int|
                0 <= p < n && 0 <= q < n && p != q ==> (#[trigger] s[p]).1 != (#[trigger] s[q]).1,
            ranks@.len() == n,
            0 < start < n ==> s[start - 1].0 < s[start as int].0,
            forall|p: int|
                0 <= p < start ==> ranks@[(#[trigger] s[p]).1 as int] == doubled_rank(
                    keys@,
                    s[p].0,
                    higher_is_better,
                ),
            forall|p: int| start <= p < n ==> ranks@[(#[trigger] s[p]).1 as int] == 0,
            sum_of(ranks@) == doubled_prefix_total(start as int, n as int, higher_is_better),
        decreases n - start,
    {
        let key = pairs[start].0;
        let mut end: usize = start + 1;
        while end < n && pairs[end].0 == key
            invariant
                start < end <= n,
                pairs@ == s,
                s.len() == n,
                key == s[start as int].0,
                forall|p: int| start <= p < end ==> (#[trigger] s[p]).0 == key,
            decreases n - end,
        {
            end += 1;
        }
        let r: usize = if higher_is_better {
            2 * n + 1 - start - end
        } else {
            start + 1 + end
        };
        proof {
            assert forall|p: int| 0 <= p < n implies ((#[trigger] s[p]).0 < key <==> p < start) by {
                if p < start {
                    assert(pair_le(s[p], s[start - 1]) || p == start - 1);
                } else {
                    assert(pair_le(s[start as int], s[p]) || p == start);
                }
            }
            assert forall|p: int| 0 <= p < n implies ((#[trigger] s[p]).0 > key <==> p >= end) by {
                if p >= end {
                    assert(pair_le(s[end as int], s[p]) || p == end);
                    assert(pair_le(s[start as int], s[end as int]));
                } else if p < start {
                    assert(pair_le(s[p], s[start as int]));
                }
            }
            lemma_count_transfer(keys@, orig, s, ahead_of(key, higher_is_better));
            lemma_count_transfer(keys@, orig, s, equal_to(key));
            if higher_is_better {
                lemma_filter_len_interval(s, on_key(ahead_of(key, higher_is_better)), end as int, n as int);
            } else {
                lemma_filter_len_interval(s, on_key(ahead_of(key, higher_is_better)), 0, start as int);
            }
            lemma_filter_len_interval(s, on_key(equal_to(key)), start as int, end as int);
            assert(r == doubled_rank(keys@, key, higher_is_better));
        }
        let mut p: usize = start;
        assert((p - start) * r == 0) by (nonlinear_arith)
            requires
                p == start,
        ;
        while p < end
            invariant
                start <= p <= end <= n,
                n == keys@.len(),
                pairs@ == s,
                s.len() == n,
                ranks@.len() == n,
                r == doubled_rank(keys@, key, higher_is_better),
                forall|q: int| start <= q < end ==> (#[trigger] s[q]).0 == key,
                forall|q: int| 0 <= q < n ==> (#[trigger] s[q]).1 < n,
                forall|a: int, b: int|
                    0 <= a < n && 0 <= b < n && a != b ==> (#[trigger] s[a]).1 != (#[trigger] s[b]).1,
                forall|q: int|
                    0 <= q < p ==> ranks@[(#[trigger] s[q]).1 as int] == doubled_rank(
                        keys@,
                        s[q].0,
                        higher_is_better,
                    ),
                forall|q: int| p <= q < n ==> ranks@[(#[trigger] s[q]).1 as int] == 0,
                sum_of(ranks@) == doubled_prefix_total(start as int, n as int, higher_is_better) + (p
                    - start) * r,
            decreases end - p,
        {
            let idx = pairs[p].1;
            proof {
                lemma_sum_update(ranks@, idx as int, r);
                assert((p + 1 - start) * r == (p - start) * r + r) by (nonlinear_arith);
            }
            ranks[idx] = r;
            p += 1;
        }
        proof {
            let st = start as int;
            let en = end as int;
            let nn = n as int;
            if higher_is_better {
                assert(st * (2 * nn - st + 1) + (en - st) * (2 * nn + 1 - st - en) == en * (2 * nn - en
                    + 1)) by (nonlinear_arith);
            } else {
                assert(st * (st + 1) + (en - st) * (st + 1 + en) == en * (en + 1)) by (nonlinear_arith);
            }
            if end < n {
                assert(pair_le(s[start as int], s[end as int]));
            }
        }
        start = end;
    }
    proof {
        assert forall|i: int| 0 <= i < n implies ranks@[i] == doubled_rank(keys@, keys@[i], higher_is_better) by {
            assert(s.contains(orig[i]));
            let p = choose|p: int| 0 <= p < n && s[p] == orig[i];
            assert(s[p].1 == i);
        }
    }
    ranks
}

/// Negating every key and flipping the ranking direction leaves every guide's
/// rank unchanged.
pub proof fn lemma_direction_symmetry(keys: Seq<i64>, negated: Seq<i64>, higher_is_better: bool)
    requires
        negated.len() == keys.len(),
        forall|i: int| 0 <= i < keys.len() ==> negated[i] == -keys[i],
    ensures
        doubled_ranks(negated, !higher_is_better) == doubled_ranks(keys, higher_is_better),
{
    assert forall|i: int| 0 <= i < keys.len() implies doubled_rank(negated, negated[i], !higher_is_better)
        == doubled_rank(keys, keys[i], higher_is_better) by {
        lemma_filter_len_aligned(
            keys,
            negated,
            ahead_of(keys[i], higher_is_better),
            ahead_of(negated[i], !higher_is_better),
        );
        lemma_filter_len_aligned(keys, negated, equal_to(keys[i]), equal_to(negated[i]));
    }
    assert(doubled_ranks(negated, !higher_is_better) =~= doubled_ranks(keys, higher_is_better));
}

} // verus!
