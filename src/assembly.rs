//! The final order of the gene results: by ascending p-value, ties broken by
//! ascending gene identifier.
use vstd::prelude::*;

verus! {

broadcast use vstd::seq_lib::group_to_multiset_ensures;

/// Strict lexicographic order of identifiers, character by character.
pub open spec fn text_lt(a: Seq<char>, b: Seq<char>) -> bool
    decreases a.len(),
{
    if a.len() == 0 {
        b.len() > 0
    } else if b.len() == 0 {
        false
    } else if a[0] != b[0] {
        (a[0] as u32) < (b[0] as u32)
    } else {
        text_lt(a.drop_first(), b.drop_first())
    }
}

/// Ascending order of (p-value key, gene, position) triples.
pub open spec fn entry_le(x: (i64, String, usize), y: (i64, String, usize)) -> bool {
    x.0 < y.0 || (x.0 == y.0 && (text_lt(x.1@, y.1@) || (x.1@ == y.1@ && x.2 <= y.2)))
}

/// Whether result `a` stands before result `b`: a smaller p-value key; or the
/// same key and a gene identifier that comes first; or, both equal, an earlier
/// position.
pub open spec fn precedes(p_keys: Seq<i64>, genes: Seq<String>, a: int, b: int) -> bool {
    p_keys[a] < p_keys[b] || (p_keys[a] == p_keys[b] && (text_lt(genes[a]@, genes[b]@) || (genes[a]@
        == genes[b]@ && a < b)))
}

/// `ranks` are 1-based significance ranks of the results: exactly 1..=K for K
/// results, a smaller rank going to the result that stands before.
pub open spec fn significance_order(p_keys: Seq<i64>, genes: Seq<String>, ranks: Seq<usize>) -> bool {
    &&& ranks.len() == p_keys.len()
    &&& forall|a: int| 0 <= a < ranks.len() ==> 1 <= #[trigger] ranks[a] <= ranks.len()
    &&& forall|a: int, b: int|
        0 <= a < ranks.len() && 0 <= b < ranks.len() && a != b ==> #[trigger] ranks[a]
            != #[trigger] ranks[b]
    &&& forall|k: int| 1 <= k <= ranks.len() ==> #[trigger] rank_taken(ranks, k)
    &&& forall|a: int, b: int|
        0 <= a < ranks.len() && 0 <= b < ranks.len() && #[trigger] ranks[a] < #[trigger] ranks[b]
            ==> precedes(p_keys, genes, a, b)
}

/// Whether some result holds rank `k`.
pub open spec fn rank_taken(ranks: Seq<usize>, k: int) -> bool {
    exists|a: int| 0 <= a < ranks.len() && ranks[a] == k
}

/// Relies on `slice::sort_unstable` with the order of tuples and of `String`
/// (lexicographic, by UTF-8 bytes, which order as the characters' code points
/// do): afterwards the triples are a permutation of those before, in ascending
/// order.
#[verifier::external_body]
fn sort_entries(v: &mut Vec<(i64, String, usize)>)
    ensures
        final(v)@.to_multiset() == old(v)@.to_multiset(),
        forall|a: int, b: int|
            0 <= a < b < final(v)@.len() ==> entry_le(#[trigger] final(v)@[a], #[trigger] final(v)@[b]),
{
    v.sort_unstable();
}

/// The 1-based significance rank of each gene result, given each result's
/// p-value order key (keys compare as the p-values do) and gene identifier:
/// the ranks are exactly 1..=K for K results, and a result with a smaller
/// rank has a smaller p-value, or the same one and a gene identifier that
/// comes first, or both the same and an earlier position.
pub fn significance_ranks(p_keys: &Vec<i64>, genes: &Vec<String>) -> (ranks: Vec<usize>)
    requires
        p_keys@.len() == genes@.len(),
    ensures
        significance_order(p_keys@, genes@, ranks@),
{
    let n = p_keys.len();
    let mut entries: Vec<(i64, String, usize)> = Vec::new();
    let mut ranks: Vec<usize> = Vec::new();
    let mut i: usize = 0;
    while i < n
        invariant
            i <= n,
            n == p_keys@.len(),
            n == genes@.len(),
            entries@.len() == i,
            ranks@.len() == i,
            forall|j: int| 0 <= j < i ==> ranks@[j] == 0,
            forall|j: int|
                0 <= j < i ==> (#[trigger] entries@[j]).0 == p_keys@[j] && entries@[j].1@ == genes@[j]@
                    && entries@[j].2 == j,
        decreases n - i,
    {
        entries.push((p_keys[i], genes[i].clone(), i));
        ranks.push(0);
        i += 1;
    }
    let ghost orig = entries@;
    proof {
        assert(orig.no_duplicates());
        orig.lemma_multiset_has_no_duplicates();
    }
    sort_entries(&mut entries);
    let ghost s = entries@;
    proof {
        assert(s.len() == s.to_multiset().len());
        assert(orig.len() == orig.to_multiset().len());
        assert forall|p: int| 0 <= p < n implies (#[trigger] s[p]).2 < n && s[p].0 == p_keys@[s[p].2 as int]
            && s[p].1@ == genes@[s[p].2 as int]@ by {
            assert(s.to_multiset().count(s[p]) > 0);
            assert(orig.contains(s[p]));
        }
        s.lemma_multiset_has_no_duplicates_conv();
        assert forall|p: int, q: int| 0 <= p < n && 0 <= q < n && p != q implies (#[trigger] s[p]).2
            != (#[trigger] s[q]).2 by {
            if s[p].2 == s[q].2 {
                assert(s.to_multiset().count(s[p]) > 0);
                assert(s.to_multiset().count(s[q]) > 0);
                assert(orig.contains(s[p]));
                assert(orig.contains(s[q]));
                let x = choose|x: int| 0 <= x < n && orig[x] == s[p];
                let y = choose|y: int| 0 <= y < n && orig[y] == s[q];
                assert(x == y);
            }
        }
        assert forall|j: int| 0 <= j < n implies s.contains(#[trigger] orig[j]) by {
            assert(orig.to_multiset().count(orig[j]) > 0);
        }
    }
    let mut p: usize = 0;
    while p < n
        invariant
            p <= n,
            n == p_keys@.len(),
            entries@ == s,
            s.len() == n,
            ranks@.len() == n,
            orig.len() == n,
            forall|j: int| 0 <= j < n ==> (#[trigger] orig[j]).2 == j,
            forall|j: int| 0 <= j < n ==> s.contains(#[trigger] orig[j]),
            forall|q: int| 0 <= q < n ==> (#[trigger] s[q]).2 < n,
            forall|a: int, b: int|
                0 <= a < n && 0 <= b < n && a != b ==> (#[trigger] s[a]).2 != (#[trigger] s[b]).2,
            forall|q: int| 0 <= q < p ==> ranks@[(#[trigger] s[q]).2 as int] == q + 1,
            forall|q: int| p <= q < n ==> ranks@[(#[trigger] s[q]).2 as int] == 0,
        decreases n - p,
    {
        let idx = entries[p].2;
        ranks[idx] = p + 1;
        p += 1;
    }
    proof {
        assert forall|a: int| 0 <= a < n implies 1 <= #[trigger] ranks@[a] <= n by {
            lemma_position_of(orig, s, a, n as int);
        }
        assert forall|a: int, b: int|
            0 <= a < n && 0 <= b < n && a != b implies #[trigger] ranks@[a] != #[trigger] ranks@[b] by {
            lemma_position_of(orig, s, a, n as int);
            lemma_position_of(orig, s, b, n as int);
        }
        assert forall|k: int| 1 <= k <= n implies #[trigger] rank_taken(ranks@, k) by {
            assert(ranks@[s[k - 1].2 as int] == k);
        }
        assert forall|a: int, b: int|
            0 <= a < n && 0 <= b < n && #[trigger] ranks@[a] < #[trigger] ranks@[b] implies precedes(
            p_keys@,
            genes@,
            a,
            b,
        ) by {
            let qa = lemma_position_of(orig, s, a, n as int);
            let qb = lemma_position_of(orig, s, b, n as int);
            assert(entry_le(s[qa], s[qb]));
            assert(qa != qb);
            if p_keys@[a] == p_keys@[b] && text_lt(genes@[b]@, genes@[a]@) {
                lemma_text_lt_asymmetric(genes@[b]@, genes@[a]@);
            }
        }
    }
    ranks
}

proof fn lemma_position_of(
    orig: Seq<(i64, String, usize)>,
    s: Seq<(i64, String, usize)>,
    a: int,
    n: int,
) -> (q: int)
    requires
        0 <= a < n,
        orig.len() == n,
        s.len() == n,
        orig[a].2 == a,
        s.contains(orig[a]),
    ensures
        0 <= q < n,
        s[q].2 == a,
{
    choose|q: int| 0 <= q < n && s[q] == orig[a]
}

proof fn lemma_text_lt_asymmetric(a: Seq<char>, b: Seq<char>)
    requires
        text_lt(a, b),
    ensures
        !text_lt(b, a),
        a != b,
    decreases a.len(),
{
    if a.len() > 0 && b.len() > 0 && a[0] == b[0] {
        lemma_text_lt_asymmetric(a.drop_first(), b.drop_first());
    }
}

proof fn lemma_precedes_asymmetric(p_keys: Seq<i64>, genes: Seq<String>, a: int, b: int)
    requires
        precedes(p_keys, genes, a, b),
    ensures
        !precedes(p_keys, genes, b, a),
{
    if p_keys[a] == p_keys[b] && text_lt(genes[a]@, genes[b]@) {
        lemma_text_lt_asymmetric(genes[a]@, genes[b]@);
    }
}

proof fn lemma_same_holder_below(
    p_keys: Seq<i64>,
    genes: Seq<String>,
    r1: Seq<usize>,
    r2: Seq<usize>,
    k: int,
)
    requires
        significance_order(p_keys, genes, r1),
        significance_order(p_keys, genes, r2),
        0 <= k <= r1.len(),
    ensures
        forall|a: int| 0 <= a < r1.len() && r1[a] <= k ==> #[trigger] r2[a] == r1[a],
    decreases k,
{
    if k > 0 {
        lemma_same_holder_below(p_keys, genes, r1, r2, k - 1);
        assert(rank_taken(r1, k));
        let a = choose|a: int| 0 <= a < r1.len() && r1[a] == k;
        assert(rank_taken(r2, k));
        let b = choose|b: int| 0 <= b < r2.len() && r2[b] == k;
        if a != b {
            if r2[a] < k {
                assert(rank_taken(r1, r2[a] as int));
                let c = choose|c: int| 0 <= c < r1.len() && r1[c] == r2[a];
                assert(r2[c] == r1[c]);
            }
            if r1[b] < k {
                assert(r2[b] == r1[b]);
            }
            assert(r1[a] < r1[b]);
            assert(r2[b] < r2[a]);
            lemma_precedes_asymmetric(p_keys, genes, a, b);
        }
    }
}

/// The significance ranks are determined by the results' p-value keys and
/// gene identifiers: two rank assignments that both meet the order are equal.
pub proof fn lemma_significance_order_unique(
    p_keys: Seq<i64>,
    genes: Seq<String>,
    r1: Seq<usize>,
    r2: Seq<usize>,
)
    requires
        significance_order(p_keys, genes, r1),
        significance_order(p_keys, genes, r2),
    ensures
        r1 == r2,
{
    lemma_same_holder_below(p_keys, genes, r1, r2, r1.len() as int);
    assert(r1 =~= r2);
}

} // verus!
