//! The order-based part of a robust rank aggregation run: from the caller's
//! sequences to, for each reported gene, the guides it is computed from and
//! the order statistics of its p-value.
use crate::grouping::{
    buckets_view, gene_groups, genes_of, group_by_gene, lemma_group_members, qualifying,
    select_groups, Bucket,
};
use crate::guides::{
    entries_view, filter_guides, kept_prefix, kept_guides, length_problem, opt_nat, trimmed_view,
    validate_lengths, RraError,
};
use crate::order_stats::{order_statistic_terms, terms_of, OrderTerm};
use crate::ranking::{compute_ranks, doubled_rank};
use vstd::prelude::*;

verus! {

/// What is computed for one reported gene.
#[derive(Debug)]
pub struct GenePlan {
    /// The trimmed gene identifier.
    pub gene: String,
    /// The positions, in the caller's sequences, of the gene's guides, in
    /// input order.
    pub sources: Vec<usize>,
    /// The order statistics of the gene's guide ranks.
    pub terms: Vec<OrderTerm>,
}

/// The plans of a run, and the number of valid guides over all genes.
#[derive(Debug)]
pub struct RraPlan {
    pub total_guides: usize,
    pub genes: Vec<GenePlan>,
}

pub open spec fn kept_keys(kept: Seq<(Seq<char>, i64, usize)>) -> Seq<i64> {
    kept.map_values(|e: (Seq<char>, i64, usize)| e.1)
}

/// The doubled ranks of the guides at the given positions of the kept list.
pub open spec fn member_ranks(
    kept: Seq<(Seq<char>, i64, usize)>,
    members: Seq<usize>,
    higher_is_better: bool,
) -> Seq<usize> {
    members.map_values(
        |i: usize| doubled_rank(kept_keys(kept), kept[i as int].1, higher_is_better) as usize,
    )
}

/// The caller's positions of the guides at the given positions of the kept list.
pub open spec fn member_sources(kept: Seq<(Seq<char>, i64, usize)>, members: Seq<usize>) -> Seq<usize> {
    members.map_values(|i: usize| kept[i as int].2)
}

/// `plan` is what is computed for the gene of `bucket`.
pub open spec fn plan_matches(
    plan: GenePlan,
    bucket: Bucket,
    kept: Seq<(Seq<char>, i64, usize)>,
    higher_is_better: bool,
) -> bool {
    &&& plan.gene@ == bucket.0
    &&& plan.sources@ == member_sources(kept, bucket.1)
    &&& terms_of(plan.terms@, member_ranks(kept, bucket.1, higher_is_better), kept.len() as int)
}

/// What a run on these inputs yields: the first length problem, else
/// `NoValidGuides` when no guide is kept, else `NoQualifyingGenes` when no gene
/// has `min_guides` guides, else one plan per such gene, in order of first
/// appearance, over `total_guides` kept guides.
pub open spec fn plan_outcome(
    keys: Seq<Option<i64>>,
    genes: Seq<String>,
    n_weights: Option<usize>,
    n_p_values: Option<usize>,
    min_guides: usize,
    higher_is_better: bool,
    r: Result<RraPlan, RraError>,
) -> bool {
    let problem = length_problem(keys.len(), genes.len(), opt_nat(n_weights), opt_nat(n_p_values));
    let kept = kept_guides(keys, trimmed_view(genes));
    let groups = gene_groups(genes_of(kept));
    let chosen = qualifying(groups, min_guides as nat);
    &&& problem is Some ==> r == Err::<RraPlan, RraError>(problem->0)
    &&& problem is None && kept.len() == 0 ==> r == Err::<RraPlan, RraError>(RraError::NoValidGuides)
    &&& problem is None && kept.len() > 0 && chosen.len() == 0 ==> r == Err::<RraPlan, RraError>(
        RraError::NoQualifyingGenes,
    )
    &&& problem is None && kept.len() > 0 && chosen.len() > 0 ==> r is Ok
    &&& r is Ok ==> r->Ok_0.total_guides == kept.len()
    &&& r is Ok ==> r->Ok_0.genes@.len() == chosen.len() && forall|t: int|
        0 <= t < chosen.len() ==> plan_matches(
            #[trigger] r->Ok_0.genes@[t],
            groups[chosen[t] as int],
            kept,
            higher_is_better,
        )
}

/// What a plan for one gene holds, as plain values.
pub open spec fn gene_plan_view(p: GenePlan) -> (Seq<char>, Seq<usize>, Seq<OrderTerm>) {
    (p.gene@, p.sources@, p.terms@)
}

/// A run is determined by its inputs: two outcomes on the same inputs fail
/// alike, or agree on the guide total and on every gene's plan.
pub proof fn lemma_plan_deterministic(
    keys: Seq<Option<i64>>,
    genes: Seq<String>,
    n_weights: Option<usize>,
    n_p_values: Option<usize>,
    min_guides: usize,
    higher_is_better: bool,
    r1: Result<RraPlan, RraError>,
    r2: Result<RraPlan, RraError>,
)
    requires
        plan_outcome(keys, genes, n_weights, n_p_values, min_guides, higher_is_better, r1),
        plan_outcome(keys, genes, n_weights, n_p_values, min_guides, higher_is_better, r2),
    ensures
        r1 is Err ==> r1 == r2,
        r1 is Ok ==> r2 is Ok && r1->Ok_0.total_guides == r2->Ok_0.total_guides
            && r1->Ok_0.genes@.map_values(|p: GenePlan| gene_plan_view(p)) == r2->Ok_0.genes@.map_values(
            |p: GenePlan| gene_plan_view(p),
        ),
{
    if r1 is Ok && r2 is Ok {
        let kept = kept_guides(keys, trimmed_view(genes));
        let groups = gene_groups(genes_of(kept));
        let chosen = qualifying(groups, min_guides as nat);
        let v1 = r1->Ok_0.genes@.map_values(|p: GenePlan| gene_plan_view(p));
        let v2 = r2->Ok_0.genes@.map_values(|p: GenePlan| gene_plan_view(p));
        assert forall|t: int| 0 <= t < v1.len() implies v1[t] == v2[t] by {
            let first_plan = r1->Ok_0.genes@[t];
            let second_plan = r2->Ok_0.genes@[t];
            assert(plan_matches(first_plan, groups[chosen[t] as int], kept, higher_is_better));
            assert(plan_matches(second_plan, groups[chosen[t] as int], kept, higher_is_better));
            crate::order_stats::lemma_terms_unique(
                first_plan.terms@,
                second_plan.terms@,
                member_ranks(kept, groups[chosen[t] as int].1, higher_is_better),
                kept.len() as int,
            );
        }
        assert(v1 =~= v2);
    }
}

/// Checks a run's inputs, keeps the valid guides, ranks them, groups them by
/// gene and lays out, for each gene with at least `min_guides` guides, in order
/// of first appearance, its guides and the order statistics of its p-value.
///
/// `keys` holds one entry per measurement: the measurement's order key, or
/// `None` where it is not finite. `n_weights` and `n_p_values` are the
/// lengths of the optional weight and p-value sequences, where given.
pub fn plan_genes(
    keys: &Vec<Option<i64>>,
    genes: &Vec<String>,
    n_weights: Option<usize>,
    n_p_values: Option<usize>,
    min_guides: usize,
    higher_is_better: bool,
) -> (r: Result<RraPlan, RraError>)
    requires
        keys@.len() < usize::MAX / 2,
    ensures
        plan_outcome(keys@, genes@, n_weights, n_p_values, min_guides, higher_is_better, r),
{
    match validate_lengths(keys.len(), genes.len(), n_weights, n_p_values) {
        Err(e) => {
            return Err(e);
        },
        Ok(()) => {},
    }
    let entries = match filter_guides(keys, genes) {
        Err(e) => {
            return Err(e);
        },
        Ok(v) => v,
    };
    let ghost kept = kept_guides(keys@, trimmed_view(genes@));
    let total = entries.len();
    proof {
        assert(kept.len() <= keys@.len()) by {
            lemma_kept_len(keys@, trimmed_view(genes@), keys@.len() as int);
        }
    }
    let mut entry_keys: Vec<i64> = Vec::new();
    let mut i: usize = 0;
    while i < total
        invariant
            i <= total,
            total == entries@.len(),
            entries@.len() == kept.len(),
            entries_view(entries@) == kept,
            entry_keys@.len() == i,
            forall|j: int| 0 <= j < i ==> entry_keys@[j] == kept[j].1,
        decreases total - i,
    {
        assert(kept[i as int].1 == entries@[i as int].key);
        entry_keys.push(entries[i].key);
        i += 1;
    }
    assert(entry_keys@ =~= kept_keys(kept));
    let ranks = compute_ranks(&entry_keys, higher_is_better);
    let groups = group_by_gene(&entries);
    let ghost gs = gene_groups(genes_of(kept));
    proof {
        lemma_group_members(genes_of(kept), kept.len() as int);
    }
    let chosen = match select_groups(&groups, min_guides) {
        Err(e) => {
            return Err(e);
        },
        Ok(c) => c,
    };
    proof {
        crate::grouping::lemma_qualifying_bounded(
            crate::grouping::bucket_sizes(gs),
            min_guides as nat,
            gs.len() as int,
        );
    }
    let mut plans: Vec<GenePlan> = Vec::new();
    let mut t: usize = 0;
    while t < chosen.len()
        invariant
            t <= chosen@.len(),
            chosen@ == qualifying(gs, min_guides as nat),
            buckets_view(groups@) == gs,
            gs == gene_groups(genes_of(kept)),
            entries_view(entries@) == kept,
            total == kept.len(),
            ranks@.len() == kept.len(),
            forall|j: int|
                0 <= j < kept.len() ==> ranks@[j] == doubled_rank(kept_keys(kept), kept[j].1, higher_is_better),
            forall|j: int, u: int|
                0 <= j < gs.len() && 0 <= u < gs[j].1.len() ==> (#[trigger] gs[j].1[u]) < kept.len(),
            forall|u: int| 0 <= u < chosen@.len() ==> (#[trigger] chosen@[u]) < gs.len(),
            plans@.len() == t,
            forall|u: int|
                0 <= u < t ==> plan_matches(#[trigger] plans@[u], gs[chosen@[u] as int], kept, higher_is_better),
        decreases chosen@.len() - t,
    {
        let c = chosen[t];
        let ghost bucket = gs[c as int];
        assert(groups@[c as int].1@ == bucket.1);
        let members = &groups[c].1;
        let mut sources: Vec<usize> = Vec::new();
        let mut member_rank: Vec<usize> = Vec::new();
        let mut u: usize = 0;
        while u < members.len()
            invariant
                u <= members@.len(),
                members@ == bucket.1,
                forall|v: int| 0 <= v < bucket.1.len() ==> (#[trigger] bucket.1[v]) < kept.len(),
                entries_view(entries@) == kept,
                ranks@.len() == kept.len(),
                forall|j: int|
                    0 <= j < kept.len() ==> ranks@[j] == doubled_rank(kept_keys(kept), kept[j].1, higher_is_better),
                sources@.len() == u,
                member_rank@.len() == u,
                forall|v: int| 0 <= v < u ==> sources@[v] == kept[bucket.1[v] as int].2,
                forall|v: int|
                    0 <= v < u ==> member_rank@[v] == doubled_rank(kept_keys(kept), kept[bucket.1[v] as int].1, higher_is_better),
            decreases members@.len() - u,
        {
            let idx = members[u];
            assert(kept[idx as int].2 == entries@[idx as int].source);
            sources.push(entries[idx].source);
            member_rank.push(ranks[idx]);
            u += 1;
        }
        assert(sources@ =~= member_sources(kept, bucket.1));
        assert(member_rank@ =~= member_ranks(kept, bucket.1, higher_is_better));
        let terms = order_statistic_terms(&member_rank, total);
        assert(groups@[c as int].0@ == bucket.0);
        let plan = GenePlan { gene: groups[c].0.clone(), sources, terms };
        plans.push(plan);
        t += 1;
    }
    Ok(RraPlan { total_guides: total, genes: plans })
}

proof fn lemma_kept_len(keys: Seq<Option<i64>>, genes: Seq<Seq<char>>, n: int)
    ensures
        kept_prefix(keys, genes, n).len() <= if n < 0 { 0 } else { n },
    decreases n,
{
    if n > 0 {
        lemma_kept_len(keys, genes, n - 1);
    }
}

} // verus!
