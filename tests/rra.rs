use crispr_rra::assembly::significance_ranks;
use crispr_rra::grouping::{group_by_gene, select_groups};
use crispr_rra::guides::{filter_guides, validate_lengths, RraError};
use crispr_rra::order_stats::{order_statistic_terms, OrderTerm};
use crispr_rra::pipeline::plan_genes;
use crispr_rra::ranking::compute_ranks;

/// Order key of a finite measurement: keys compare as the measurements do.
fn key_of(v: f64) -> Option<i64> {
    if !v.is_finite() {
        return None;
    }
    let bits = v.to_bits();
    let magnitude = (bits & 0x7fff_ffff_ffff_ffff) as i64;
    if bits >> 63 == 1 {
        Some(-magnitude)
    } else {
        Some(magnitude)
    }
}

fn keys_of(values: &[f64]) -> Vec<Option<i64>> {
    values.iter().map(|v| key_of(*v)).collect()
}

fn names(genes: &[&str]) -> Vec<String> {
    genes.iter().map(|g| g.to_string()).collect()
}

fn plain_keys(values: &[f64]) -> Vec<i64> {
    values.iter().map(|v| key_of(*v).unwrap()).collect()
}

#[test]
fn empty_values_are_invalid_input() {
    let r = validate_lengths(0, 0, None, None);
    assert_eq!(r, Err(RraError::EmptyValues));
    assert!(RraError::EmptyValues.is_invalid_input());
}

#[test]
fn length_mismatches_are_reported_in_order() {
    assert_eq!(validate_lengths(3, 2, None, None), Err(RraError::GenesLengthMismatch));
    assert_eq!(validate_lengths(3, 3, Some(2), Some(1)), Err(RraError::WeightsLengthMismatch));
    assert_eq!(validate_lengths(3, 3, Some(3), Some(1)), Err(RraError::PValuesLengthMismatch));
    assert_eq!(validate_lengths(3, 3, Some(3), Some(3)), Ok(()));
    assert_eq!(validate_lengths(3, 3, None, None), Ok(()));
}

#[test]
fn all_nan_values_give_no_valid_guides() {
    let keys = keys_of(&[f64::NAN, f64::NAN, f64::NAN]);
    let genes = names(&["A", "A", "B"]);
    let r = plan_genes(&keys, &genes, None, None, 2, true);
    assert_eq!(r.err(), Some(RraError::NoValidGuides));
    assert!(!RraError::NoValidGuides.is_invalid_input());
    let mismatch = plan_genes(&keys, &names(&["A"]), None, None, 2, true);
    assert_eq!(mismatch.err(), Some(RraError::GenesLengthMismatch));
    assert_ne!(RraError::NoValidGuides, RraError::GenesLengthMismatch);
}

#[test]
fn filtering_drops_non_finite_values_and_blank_genes() {
    let keys = keys_of(&[1.0, f64::INFINITY, 2.0, 3.0, f64::NEG_INFINITY]);
    let genes = names(&["  A ", "B", "   ", "C\t", "D"]);
    let entries = filter_guides(&keys, &genes).unwrap();
    assert_eq!(entries.len(), 2);
    assert_eq!(entries[0].gene, "A");
    assert_eq!(entries[0].source, 0);
    assert_eq!(entries[1].gene, "C");
    assert_eq!(entries[1].source, 3);
    assert_eq!(entries[1].key, key_of(3.0).unwrap());
}

#[test]
fn ranks_higher_is_better() {
    let ranks = compute_ranks(&plain_keys(&[1.0, 2.0, 3.0, 10.0]), true);
    assert_eq!(ranks, vec![8, 6, 4, 2]);
}

#[test]
fn ranks_lower_is_better_with_ties() {
    let ranks = compute_ranks(&plain_keys(&[5.0, 5.0, 5.0, 1.0]), false);
    assert_eq!(ranks, vec![6, 6, 6, 2]);
}

#[test]
fn three_way_tie_at_positions_four_to_six() {
    let ranks = compute_ranks(&plain_keys(&[9.0, 8.0, 7.0, 1.0, 1.0, 1.0, 0.5]), true);
    assert_eq!(ranks, vec![2, 4, 6, 10, 10, 10, 14]);
}

#[test]
fn rank_sum_is_n_times_n_plus_one_over_two() {
    let values = [0.3, -1.0, 0.3, 2.5, 0.0, -0.0, 0.3, 7.0];
    for direction in [true, false] {
        let ranks = compute_ranks(&plain_keys(&values), direction);
        let total: usize = ranks.iter().sum();
        let n = values.len();
        assert_eq!(total, n * (n + 1));
        assert_eq!(ranks[4], ranks[5]);
        assert_eq!(ranks[0], ranks[2]);
        assert_eq!(ranks[0], ranks[6]);
    }
}

#[test]
fn negating_and_flipping_direction_keeps_ranks() {
    let values = [1.5, -2.0, 1.5, 0.0, 4.0];
    let negated: Vec<f64> = values.iter().map(|v| -v).collect();
    let a = compute_ranks(&plain_keys(&values), true);
    let b = compute_ranks(&plain_keys(&negated), false);
    assert_eq!(a, b);
    let c = compute_ranks(&plain_keys(&values), false);
    let d = compute_ranks(&plain_keys(&negated), true);
    assert_eq!(c, d);
}

#[test]
fn groups_follow_first_appearance() {
    let keys = keys_of(&[1.0, 2.0, 3.0, 4.0, 5.0]);
    let genes = names(&["B", "A", "B", "C", "A"]);
    let entries = filter_guides(&keys, &genes).unwrap();
    let groups = group_by_gene(&entries);
    assert_eq!(groups.len(), 3);
    assert_eq!(groups[0], ("B".to_string(), vec![0, 2]));
    assert_eq!(groups[1], ("A".to_string(), vec![1, 4]));
    assert_eq!(groups[2], ("C".to_string(), vec![3]));
    assert_eq!(select_groups(&groups, 2), Ok(vec![0, 1]));
    assert_eq!(select_groups(&groups, 1), Ok(vec![0, 1, 2]));
    assert_eq!(select_groups(&groups, 3), Err(RraError::NoQualifyingGenes));
}

#[test]
fn order_terms_sort_ranks_and_set_shapes() {
    let terms = order_statistic_terms(&vec![8, 6], 4);
    assert_eq!(
        terms,
        vec![
            OrderTerm { doubled_rank: 6, alpha: 1, beta: 4 },
            OrderTerm { doubled_rank: 8, alpha: 2, beta: 3 },
        ]
    );
    assert!(order_statistic_terms(&vec![], 4).is_empty());
}

#[test]
fn significance_ranks_break_ties_by_gene() {
    let ranks = significance_ranks(&vec![3, 1, 1], &names(&["c", "b", "a"]));
    assert_eq!(ranks, vec![3, 2, 1]);
    let ranks = significance_ranks(&vec![5, 2, 9, 2], &names(&["x", "y", "a", "b"]));
    assert_eq!(ranks, vec![3, 2, 4, 1]);
    let mut sorted = ranks.clone();
    sorted.sort();
    assert_eq!(sorted, vec![1, 2, 3, 4]);
}

#[test]
fn better_gene_gets_better_order_statistics() {
    let keys = keys_of(&[1.0, 2.0, 3.0, 10.0]);
    let genes = names(&["A", "A", "B", "B"]);
    let run = plan_genes(&keys, &genes, None, None, 2, true).unwrap();
    assert_eq!(run.total_guides, 4);
    let plans = run.genes;
    assert_eq!(plans.len(), 2);
    assert_eq!(plans[0].gene, "A");
    assert_eq!(plans[0].sources, vec![0, 1]);
    assert_eq!(plans[1].gene, "B");
    assert_eq!(plans[1].sources, vec![2, 3]);
    let a: Vec<usize> = plans[0].terms.iter().map(|t| t.doubled_rank).collect();
    let b: Vec<usize> = plans[1].terms.iter().map(|t| t.doubled_rank).collect();
    assert_eq!(a, vec![6, 8]);
    assert_eq!(b, vec![2, 4]);
    assert_eq!(plans[1].terms[1].alpha, 2);
    assert_eq!(plans[1].terms[1].beta, 3);
}

#[test]
fn single_gene_below_minimum_gives_no_qualifying_genes() {
    let keys = keys_of(&[1.0]);
    let genes = names(&["A"]);
    let r = plan_genes(&keys, &genes, None, None, 2, true);
    assert_eq!(r.err(), Some(RraError::NoQualifyingGenes));
}

#[test]
fn plans_are_deterministic() {
    let keys = keys_of(&[0.5, -1.0, 2.0, 2.0, 0.1, f64::NAN]);
    let genes = names(&["G1", "G2", "G1", "G2", "G3", "G3"]);
    let first = plan_genes(&keys, &genes, Some(6), None, 1, false).unwrap();
    let second = plan_genes(&keys, &genes, Some(6), None, 1, false).unwrap();
    assert_eq!(format!("{:?}", first), format!("{:?}", second));
    assert_eq!(first.total_guides, 5);
    assert_eq!(first.genes.len(), 3);
    assert_eq!(first.genes[2].sources, vec![4]);
}
