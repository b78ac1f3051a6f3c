use ggca::adjustment::{
    get_adjustment_method, Adjustment, AdjustmentMethod, BenjaminiHochberg, Bonferroni,
};
use ggca::ranking::rank_vector_counts;

fn bits(v: &[f64]) -> Vec<u64> {
    v.iter().map(|x| x.to_bits()).collect()
}

/// The mean rank of an entry from its two counts: entries below it, plus
/// half the tied span.
fn mean_rank(below: u64, ties: u64) -> f64 {
    below as f64 + (ties as f64 + 1.0) / 2.0
}

#[test]
/// Distinct values rank 1..n in value order.
fn distinct_values_rank_in_order() {
    let counts = rank_vector_counts(&bits(&[30.0, 10.0, 20.0]));
    let ranks: Vec<f64> = counts.iter().map(|c| mean_rank(c.0, c.1)).collect();
    assert_eq!(ranks, vec![3.0, 1.0, 2.0]);
}

#[test]
/// Tied values share the mean of the positions they span.
fn ties_share_the_mean_rank() {
    let counts = rank_vector_counts(&bits(&[10.0, 20.0, 20.0, 30.0]));
    let ranks: Vec<f64> = counts.iter().map(|c| mean_rank(c.0, c.1)).collect();
    assert_eq!(ranks, vec![1.0, 2.5, 2.5, 4.0]);
    let all_tied = rank_vector_counts(&bits(&[7.0, 7.0, 7.0]));
    let ranks: Vec<f64> = all_tied.iter().map(|c| mean_rank(c.0, c.1)).collect();
    assert_eq!(ranks, vec![2.0, 2.0, 2.0]);
}

#[test]
/// Negative values order below positive ones, and the two zeroes tie.
fn ranks_respect_sign_and_zero() {
    let counts = rank_vector_counts(&bits(&[-1.0, 0.0, -0.0, 2.0]));
    let ranks: Vec<f64> = counts.iter().map(|c| mean_rank(c.0, c.1)).collect();
    assert_eq!(ranks, vec![1.0, 2.5, 2.5, 4.0]);
}

#[test]
/// Bonferroni caps the scaled p-value at one and keeps no state.
fn bonferroni_clamps_at_one() {
    let mut adj = Bonferroni::new(10);
    assert_eq!(f64::from_bits(adj.adjust(0.3f64.to_bits(), 0)), 0.3);
    assert_eq!(f64::from_bits(adj.adjust(4.2f64.to_bits(), 1)), 1.0);
    assert_eq!(f64::from_bits(adj.adjust(0.05f64.to_bits(), 2)), 0.05);
}

#[test]
/// The step-up recurrence keeps a running minimum: outputs never increase
/// along the descending traversal and never pass one.
fn step_up_running_minimum() {
    let mut adj = BenjaminiHochberg::new(4);
    let inputs = [1.7f64, 0.8, 0.9, 0.2];
    let mut produced: Vec<f64> = Vec::new();
    for (rank, scaled) in inputs.iter().enumerate() {
        produced.push(f64::from_bits(adj.adjust(scaled.to_bits(), rank)));
    }
    assert_eq!(produced, vec![1.0, 0.8, 0.8, 0.2]);
    for w in produced.windows(2) {
        assert!(w[1] <= w[0]);
    }
}

#[test]
/// The dispatcher hands out the method that was asked for.
fn dispatcher_selects_the_method() {
    let mut by = get_adjustment_method(&AdjustmentMethod::BenjaminiYekutieli, 3);
    let first = f64::from_bits(by.adjust(0.9f64.to_bits(), 0));
    let second = f64::from_bits(by.adjust(0.95f64.to_bits(), 1));
    // The running minimum clamps the second output to the first.
    assert_eq!(first, 0.9);
    assert_eq!(second, 0.9);
    let mut bonferroni = get_adjustment_method(&AdjustmentMethod::Bonferroni, 3);
    let a = f64::from_bits(bonferroni.adjust(0.9f64.to_bits(), 0));
    let b = f64::from_bits(bonferroni.adjust(0.95f64.to_bits(), 1));
    // Bonferroni keeps no running minimum.
    assert_eq!(a, 0.9);
    assert_eq!(b, 0.95);
}

#[test]
/// Method names for display.
fn method_descriptions() {
    assert_eq!(AdjustmentMethod::Bonferroni.description(), "Bonferroni");
    assert_eq!(
        AdjustmentMethod::BenjaminiHochberg.description(),
        "Benjamini-Hochberg"
    );
    assert_eq!(
        AdjustmentMethod::BenjaminiYekutieli.description(),
        "Benjamini-Yekutieli"
    );
    assert_eq!(
        ggca::correlation::CorrelationMethod::Kendall.description(),
        "Kendall"
    );
}
