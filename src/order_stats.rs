//! The order statistics that drive a gene's robust rank aggregation p-value.
//!
//! For the i-th smallest normalised rank of a gene's guides (1-based i) the
//! p-value takes the Beta(i, max(N - i + 1, 1)) distribution function at that
//! rank, N being the number of guides in the whole data set; the gene's p-value
//! is the least of these. This module lays out the ranks and shape parameters.
use vstd::multiset::Multiset;
use vstd::prelude::*;

verus! {

broadcast use vstd::seq_lib::group_to_multiset_ensures;

/// One order statistic: the doubled rank of the guide (twice its
/// tie-averaged rank) and the two shape parameters of its Beta distribution.
#[derive(Debug, Clone, Copy, PartialEq, Eq, Structural)]
pub struct OrderTerm {
    pub doubled_rank: usize,
    pub alpha: usize,
    pub beta: usize,
}

/// The second shape parameter for the order statistic at 0-based position `i`
/// among `total` guides.
pub open spec fn beta_shape(total: int, i: int) -> int {
    if total - i >= 1 {
        total - i
    } else {
        1
    }
}

/// `terms` are the order statistics of a gene whose guides have the doubled
/// ranks `ranks`, among `total` guides.
pub open spec fn terms_of(terms: Seq<OrderTerm>, ranks: Seq<usize>, total: int) -> bool {
    &&& terms.len() == ranks.len()
    &&& terms.map_values(|t: OrderTerm| t.doubled_rank).to_multiset() == ranks.to_multiset()
    &&& forall|a: int, b: int|
        0 <= a < b < terms.len() ==> (#[trigger] terms[a]).doubled_rank <= (#[trigger] terms[b]).doubled_rank
    &&& forall|i: int|
        0 <= i < terms.len() ==> (#[trigger] terms[i]).alpha == i + 1 && terms[i].beta == beta_shape(
            total,
            i,
        )
}

/// Relies on `slice::sort_unstable`: afterwards the values are a permutation
/// of those before, in ascending order.
#[verifier::external_body]
fn sort_ranks(v: &mut Vec<usize>)
    ensures
        final(v)@.to_multiset() == old(v)@.to_multiset(),
        forall|a: int, b: int|
            0 <= a < b < final(v)@.len() ==> #[trigger] final(v)@[a] <= #[trigger] final(v)@[b],
{
    v.sort_unstable();
}

/// The order statistics of one gene's guides, given their doubled ranks and
/// the number of guides in the whole data set: the ranks in ascending order,
/// the i-th (0-based) with shape parameters `i + 1` and `max(total - i, 1)`.
pub fn order_statistic_terms(doubled_ranks: &Vec<usize>, total: usize) -> (r: Vec<OrderTerm>)
    ensures
        terms_of(r@, doubled_ranks@, total as int),
{
    let mut sorted = doubled_ranks.clone();
    assert(sorted@ =~= doubled_ranks@);
    sort_ranks(&mut sorted);
    assert(sorted@.len() == sorted@.to_multiset().len());
    assert(doubled_ranks@.len() == doubled_ranks@.to_multiset().len());
    let mut out: Vec<OrderTerm> = Vec::new();
    let mut i: usize = 0;
    while i < sorted.len()
        invariant
            i <= sorted@.len(),
            out@.len() == i,
            forall|j: int|
                0 <= j < i ==> (#[trigger] out@[j]).doubled_rank == sorted@[j] && out@[j].alpha == j + 1
                    && out@[j].beta == beta_shape(total as int, j),
        decreases sorted@.len() - i,
    {
        let beta = if total > i {
            total - i
        } else {
            1
        };
        out.push(OrderTerm { doubled_rank: sorted[i], alpha: i + 1, beta });
        i += 1;
    }
    assert(out@.map_values(|t: OrderTerm| t.doubled_rank) =~= sorted@);
    out
}

proof fn lemma_sorted_permutation_unique(s1: Seq<usize>, s2: Seq<usize>)
    requires
        s1.to_multiset() == s2.to_multiset(),
        forall|a: int, b: int| 0 <= a < b < s1.len() ==> #[trigger] s1[a] <= #[trigger] s1[b],
        forall|a: int, b: int| 0 <= a < b < s2.len() ==> #[trigger] s2[a] <= #[trigger] s2[b],
    ensures
        s1 == s2,
    decreases s1.len(),
{
    broadcast use vstd::multiset::group_multiset_axioms;

    assert(s1.len() == s1.to_multiset().len());
    assert(s2.len() == s2.to_multiset().len());
    if s1.len() == 0 {
        assert(s1 =~= s2);
    } else {
        let n = s1.len() as int;
        let x1 = s1.last();
        let x2 = s2.last();
        assert(s1.to_multiset().count(x2) > 0);
        assert(s1.contains(x2));
        assert(s2.to_multiset().count(x1) > 0);
        assert(s2.contains(x1));
        let i1 = choose|i: int| 0 <= i < n && s1[i] == x2;
        let i2 = choose|i: int| 0 <= i < n && s2[i] == x1;
        if i1 < n - 1 {
            assert(s1[i1] <= s1[n - 1]);
        }
        if i2 < n - 1 {
            assert(s2[i2] <= s2[n - 1]);
        }
        assert(x1 == x2);
        let d1 = s1.drop_last();
        let d2 = s2.drop_last();
        assert(s1 =~= d1.push(x1));
        assert(s2 =~= d2.push(x1));
        assert(d1.to_multiset() =~= d2.to_multiset()) by {
            assert(s1.to_multiset() =~= d1.to_multiset().insert(x1));
            assert(s2.to_multiset() =~= d2.to_multiset().insert(x1));
            assert forall|v: usize| d1.to_multiset().count(v) == d2.to_multiset().count(v) by {
                assert(s1.to_multiset().count(v) == s2.to_multiset().count(v));
                assert(d1.to_multiset().insert(x1).count(v) == d1.to_multiset().count(v)
                    + Multiset::singleton(x1).count(v));
                assert(d2.to_multiset().insert(x1).count(v) == d2.to_multiset().count(v)
                    + Multiset::singleton(x1).count(v));
            }
        }
        assert forall|a: int, b: int| 0 <= a < b < d1.len() implies #[trigger] d1[a] <= #[trigger] d1[b] by {
            assert(s1[a] <= s1[b]);
        }
        assert forall|a: int, b: int| 0 <= a < b < d2.len() implies #[trigger] d2[a] <= #[trigger] d2[b] by {
            assert(s2[a] <= s2[b]);
        }
        lemma_sorted_permutation_unique(d1, d2);
        assert(s1 =~= s2);
    }
}

/// The order statistics of a gene are determined by its guides' ranks and
/// the number of guides: two term lists that both meet the layout are equal.
pub proof fn lemma_terms_unique(t1: Seq<OrderTerm>, t2: Seq<OrderTerm>, ranks: Seq<usize>, total: int)
    requires
        terms_of(t1, ranks, total),
        terms_of(t2, ranks, total),
    ensures
        t1 == t2,
{
    let s1 = t1.map_values(|t: OrderTerm| t.doubled_rank);
    let s2 = t2.map_values(|t: OrderTerm| t.doubled_rank);
    assert forall|a: int, b: int| 0 <= a < b < s1.len() implies #[trigger] s1[a] <= #[trigger] s1[b] by {
        assert(t1[a].doubled_rank <= t1[b].doubled_rank);
    }
    assert forall|a: int, b: int| 0 <= a < b < s2.len() implies #[trigger] s2[a] <= #[trigger] s2[b] by {
        assert(t2[a].doubled_rank <= t2[b].doubled_rank);
    }
    lemma_sorted_permutation_unique(s1, s2);
    assert forall|i: int| 0 <= i < t1.len() implies t1[i] == t2[i] by {
        assert(s1[i] == s2[i]);
    }
    assert(t1 =~= t2);
}

} // verus!
