//! Partition of the guides by gene, in order of first appearance.
use crate::guides::{entries_view, GuideEntry, RraError};
use indexmap::IndexMap;
use vstd::prelude::*;

verus! {

#[verifier::external_type_specification]
#[verifier::external_body]
#[verifier::reject_recursive_types(K)]
#[verifier::reject_recursive_types(V)]
#[verifier::reject_recursive_types(S)]
pub struct ExIndexMap<K, V, S>(IndexMap<K, V, S>);

/// A gene and the positions of its guides.
pub type Bucket = (Seq<char>, Seq<usize>);

/// The buckets that a gene index holds, in insertion order.
pub uninterp spec fn gene_buckets(m: IndexMap<String, Vec<usize>>) -> Seq<(Seq<char>, Seq<usize>)>;

/// Where the bucket of `gene` stands, or -1 where there is none.
pub open spec fn bucket_position(b: Seq<Bucket>, gene: Seq<char>) -> int
    decreases b.len(),
{
    if b.len() == 0 {
        -1
    } else if b.last().0 == gene {
        b.len() - 1
    } else {
        bucket_position(b.drop_last(), gene)
    }
}

/// The buckets after guide `idx` of `gene` is added: at the end of the gene's
/// bucket, or in a new bucket at the end.
pub open spec fn bucket_add(b: Seq<Bucket>, gene: Seq<char>, idx: usize) -> Seq<Bucket> {
    let j = bucket_position(b, gene);
    if j < 0 {
        b.push((gene, seq![idx]))
    } else {
        b.update(j, (gene, b[j].1.push(idx)))
    }
}

/// The buckets of the first `n` genes of `genes`.
pub open spec fn group_prefix(genes: Seq<Seq<char>>, n: int) -> Seq<Bucket>
    decreases n,
{
    if n <= 0 {
        Seq::empty()
    } else {
        bucket_add(group_prefix(genes, n - 1), genes[n - 1], (n - 1) as usize)
    }
}

/// The buckets of all of `genes`: one per distinct gene, in order of first
/// appearance, each holding the positions of that gene in ascending order.
pub open spec fn gene_groups(genes: Seq<Seq<char>>) -> Seq<Bucket> {
    group_prefix(genes, genes.len() as int)
}

pub open spec fn genes_of(entries: Seq<(Seq<char>, i64, usize)>) -> Seq<Seq<char>> {
    entries.map_values(|e: (Seq<char>, i64, usize)| e.0)
}

pub open spec fn buckets_view(v: Seq<(String, Vec<usize>)>) -> Seq<Bucket> {
    v.map_values(|p: (String, Vec<usize>)| (p.0@, p.1@))
}

/// Relies on `IndexMap::new`: a new map holds no entry.
#[verifier::external_body]
fn new_gene_index() -> (m: IndexMap<String, Vec<usize>>)
    ensures
        gene_buckets(m) == Seq::<Bucket>::empty(),
{
    IndexMap::new()
}

/// Relies on `IndexMap::entry` with `Entry::or_default`: an occupied entry
/// keeps its place, and a vacant one is inserted at the end with an empty
/// vector; `idx` is then pushed onto that entry's vector.
#[verifier::external_body]
fn add_to_bucket(m: &mut IndexMap<String, Vec<usize>>, gene: String, idx: usize)
    ensures
        gene_buckets(*final(m)) == bucket_add(gene_buckets(*old(m)), gene@, idx),
{
    m.entry(gene).or_default().push(idx);
}

/// Relies on `IndexMap`'s `IntoIterator`: the entries come out in the map's
/// order.
#[verifier::external_body]
fn into_buckets(m: IndexMap<String, Vec<usize>>) -> (r: Vec<(String, Vec<usize>)>)
    ensures
        buckets_view(r@) == gene_buckets(m),
{
    m.into_iter().collect()
}

/// Groups the guides by gene: one bucket per distinct gene, in order of first
/// appearance, holding the positions of its guides in the list.
pub fn group_by_gene(entries: &Vec<GuideEntry>) -> (r: Vec<(String, Vec<usize>)>)
    ensures
        buckets_view(r@) == gene_groups(genes_of(entries_view(entries@))),
{
    let ghost genes = genes_of(entries_view(entries@));
    let mut index = new_gene_index();
    let mut i: usize = 0;
    while i < entries.len()
        invariant
            i <= entries@.len(),
            genes == genes_of(entries_view(entries@)),
            gene_buckets(index) == group_prefix(genes, i as int),
        decreases entries@.len() - i,
    {
        assert(genes[i as int] == entries@[i as int].gene@);
        add_to_bucket(&mut index, entries[i].gene.clone(), i);
        i += 1;
    }
    into_buckets(index)
}

/// The positions of the buckets with at least `min_guides` guides, in order.
pub open spec fn qualifying_prefix(sizes: Seq<nat>, min_guides: nat, n: int) -> Seq<usize>
    decreases n,
{
    if n <= 0 {
        Seq::empty()
    } else if sizes[n - 1] >= min_guides {
        qualifying_prefix(sizes, min_guides, n - 1).push((n - 1) as usize)
    } else {
        qualifying_prefix(sizes, min_guides, n - 1)
    }
}

pub open spec fn bucket_sizes(b: Seq<Bucket>) -> Seq<nat> {
    b.map_values(|p: Bucket| p.1.len())
}

pub open spec fn qualifying(b: Seq<Bucket>, min_guides: nat) -> Seq<usize> {
    qualifying_prefix(bucket_sizes(b), min_guides, b.len() as int)
}

/// Picks the buckets that hold at least `min_guides` guides; fails when none
/// does.
pub fn select_groups(groups: &Vec<(String, Vec<usize>)>, min_guides: usize) -> (r: Result<
    Vec<usize>,
    RraError,
>)
    ensures
        r is Ok <==> qualifying(buckets_view(groups@), min_guides as nat).len() > 0,
        r is Ok ==> r->Ok_0@ == qualifying(buckets_view(groups@), min_guides as nat),
        r is Err ==> r->Err_0 == RraError::NoQualifyingGenes,
{
    let ghost sizes = bucket_sizes(buckets_view(groups@));
    let mut out: Vec<usize> = Vec::new();
    let mut i: usize = 0;
    while i < groups.len()
        invariant
            i <= groups@.len(),
            sizes == bucket_sizes(buckets_view(groups@)),
            out@ == qualifying_prefix(sizes, min_guides as nat, i as int),
        decreases groups@.len() - i,
    {
        assert(sizes[i as int] == groups@[i as int].1@.len());
        if groups[i].1.len() >= min_guides {
            out.push(i);
        }
        i += 1;
    }
    if out.len() == 0 {
        Err(RraError::NoQualifyingGenes)
    } else {
        Ok(out)
    }
}

proof fn lemma_bucket_position(b: Seq<Bucket>, gene: Seq<char>)
    ensures
        -1 <= bucket_position(b, gene) < b.len(),
        bucket_position(b, gene) >= 0 ==> b[bucket_position(b, gene)].0 == gene,
    decreases b.len(),
{
    if b.len() > 0 && b.last().0 != gene {
        lemma_bucket_position(b.drop_last(), gene);
    }
}

/// Every position in a bucket of the first `n` genes is below `n` and holds
/// the bucket's gene.
pub proof fn lemma_group_members(genes: Seq<Seq<char>>, n: int)
    requires
        0 <= n <= genes.len(),
        n <= usize::MAX,
    ensures
        forall|j: int, t: int|
            0 <= j < group_prefix(genes, n).len() && 0 <= t < group_prefix(genes, n)[j].1.len() ==> {
                let i = #[trigger] group_prefix(genes, n)[j].1[t];
                i < n && genes[i as int] == group_prefix(genes, n)[j].0
            },
    decreases n,
{
    if n > 0 {
        lemma_group_members(genes, n - 1);
        let prev = group_prefix(genes, n - 1);
        lemma_bucket_position(prev, genes[n - 1]);
        let g = group_prefix(genes, n);
        assert forall|j: int, t: int| 0 <= j < g.len() && 0 <= t < g[j].1.len() implies {
            let i = #[trigger] g[j].1[t];
            i < n && genes[i as int] == g[j].0
        } by {
            let pos = bucket_position(prev, genes[n - 1]);
            if pos < 0 {
                if j < prev.len() {
                    assert(g[j] == prev[j]);
                    assert(prev[j].1[t] < n - 1);
                } else {
                    assert(g[j].1 == seq![(n - 1) as usize]);
                }
            } else if j != pos {
                assert(g[j] == prev[j]);
                assert(prev[j].1[t] < n - 1);
            } else if t < prev[j].1.len() {
                assert(g[j].1[t] == prev[j].1[t]);
                assert(prev[j].1[t] < n - 1);
            } else {
                assert(g[j].1[t] == (n - 1) as usize);
            }
        }
    }
}

/// The positions picked among `n` buckets are below `n`.
pub proof fn lemma_qualifying_bounded(sizes: Seq<nat>, min_guides: nat, n: int)
    requires
        n <= usize::MAX,
    ensures
        forall|u: int|
            0 <= u < qualifying_prefix(sizes, min_guides, n).len() ==> #[trigger] qualifying_prefix(
                sizes,
                min_guides,
                n,
            )[u] < n,
    decreases n,
{
    if n > 0 {
        lemma_qualifying_bounded(sizes, min_guides, n - 1);
        let prev = qualifying_prefix(sizes, min_guides, n - 1);
        let cur = qualifying_prefix(sizes, min_guides, n);
        assert forall|u: int| 0 <= u < cur.len() implies #[trigger] cur[u] < n by {
            if u < prev.len() {
                assert(cur[u] == prev[u]);
            }
        }
    }
}

} // verus!
