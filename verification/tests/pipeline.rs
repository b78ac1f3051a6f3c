use ggca::adjustment::AdjustmentMethod;
use ggca::analysis::{validate_headers, Analysis, AnalysisError};
use ggca::correlation::{CorResult, CorrelationMethod};
use statrs::distribution::{ContinuousCDF, StudentsT};

/// One dataset row from a label and plain sample values.
fn row(label: &str, values: &[f64]) -> (String, Option<String>, Vec<u64>) {
    (
        label.to_string(),
        None,
        values.iter().map(|v| v.to_bits()).collect(),
    )
}

/// The Pearson correlation coefficient of two equally long slices.
fn pearson_correlation(x: &[f64], y: &[f64]) -> f64 {
    let n = x.len() as f64;
    let mut sum_x = 0.0;
    let mut sum_y = 0.0;
    let mut sum_xy = 0.0;
    let mut sum_x2 = 0.0;
    let mut sum_y2 = 0.0;
    for i in 0..x.len() {
        sum_x += x[i];
        sum_y += y[i];
        sum_xy += x[i] * y[i];
        sum_x2 += x[i] * x[i];
        sum_y2 += y[i] * y[i];
    }
    let numerator = sum_xy - (sum_x * sum_y / n);
    let denominator = ((sum_x2 - (sum_x * sum_x / n)) * (sum_y2 - (sum_y * sum_y / n))).sqrt();
    numerator / denominator
}

/// The Pearson kernel over bit patterns: statistic and two-sided p-value
/// under a Student's-t distribution with n−2 degrees of freedom.
fn pearson_kernel(n: usize) -> impl Fn(&Vec<u64>, &Vec<u64>) -> (u64, u64) {
    let degrees_of_freedom = (n - 2) as f64;
    let student_distribution = StudentsT::new(0.0, 1.0, degrees_of_freedom).unwrap();
    move |xb: &Vec<u64>, yb: &Vec<u64>| {
        let x: Vec<f64> = xb.iter().map(|b| f64::from_bits(*b)).collect();
        let y: Vec<f64> = yb.iter().map(|b| f64::from_bits(*b)).collect();
        let r = pearson_correlation(&x, &y);
        let statistic = degrees_of_freedom.sqrt() * r / (1.0 - r.powi(2)).sqrt();
        if statistic.is_nan() {
            (r.to_bits(), f64::NAN.to_bits())
        } else {
            let cdf = student_distribution.cdf(statistic);
            let ccdf = 1.0 - cdf;
            let p_value = 2.0 * cdf.min(ccdf);
            (r.to_bits(), p_value.to_bits())
        }
    }
}

/// The rank-dependent scaling of one raw p-value for the given method.
fn scale_kernel(method: AdjustmentMethod) -> impl Fn(u64, usize, usize) -> u64 {
    move |p_bits: u64, rank: usize, n: usize| {
        let p_value = f64::from_bits(p_bits);
        let nf = n as f64;
        let scaled = match method {
            AdjustmentMethod::Bonferroni => p_value * nf,
            AdjustmentMethod::BenjaminiHochberg => p_value * (nf / (nf - rank as f64)),
            AdjustmentMethod::BenjaminiYekutieli => {
                let accumulator: f64 =
                    (1..n as u64 + 1).fold(0.0, |acc, v| acc + (1.0 / v as f64));
                p_value * (accumulator * nf / (nf - rank as f64))
            }
        };
        scaled.to_bits()
    }
}

fn analysis(
    correlation_threshold: f64,
    adjustment_method: AdjustmentMethod,
    is_all_vs_all: bool,
    keep_top_n: Option<usize>,
) -> Analysis {
    Analysis {
        gene_file_path: "mrna.csv".to_string(),
        gem_file_path: "mirna.csv".to_string(),
        gem_contains_cpg: false,
        correlation_method: CorrelationMethod::Pearson,
        correlation_threshold: correlation_threshold.to_bits(),
        sort_buf_size: 2_000_000,
        adjustment_method,
        is_all_vs_all,
        collect_gem_dataset: Some(true),
        keep_top_n,
    }
}

fn small_dataset() -> Vec<(String, Option<String>, Vec<u64>)> {
    vec![
        row("gene-a", &[1.0, 2.0, 3.0]),
        row("gene-b", &[4.0, 6.0, 5.0]),
        row("gene-c", &[10.0, 8.0, 9.0]),
    ]
}

#[test]
/// Two 3-row datasets with identical values per matching label, all-vs-all,
/// Pearson, threshold zero: every self-pair statistic is exactly one.
fn self_pairs_correlate_to_one() {
    let a = analysis(0.0, AdjustmentMethod::BenjaminiHochberg, true, None);
    let correlate = pearson_kernel(3);
    let scale = scale_kernel(AdjustmentMethod::BenjaminiHochberg);
    let (result, count_before, n_evaluated, nan_filtered) =
        a.run_analysis(small_dataset(), small_dataset(), &correlate, &scale);
    assert_eq!(n_evaluated, 9);
    assert_eq!(nan_filtered, 0);
    assert_eq!(count_before, 9);
    assert_eq!(result.len(), 9);
    let mut self_pairs = 0;
    for rec in result.iter() {
        if rec.gene == rec.gem {
            self_pairs += 1;
            assert_eq!(f64::from_bits(rec.correlation.unwrap()), 1.0);
        }
        let p = f64::from_bits(rec.p_value.unwrap());
        assert!((0.0..=1.0).contains(&p));
        let q = f64::from_bits(rec.adjusted_p_value.unwrap());
        assert!(q <= 1.0);
    }
    assert_eq!(self_pairs, 3);
}

#[test]
/// A constant-valued row in dataset A has zero variance: all its pairs are
/// NaN-filtered, and the filtered count equals the number of rows in B.
fn constant_row_is_nan_filtered() {
    let a = analysis(0.0, AdjustmentMethod::BenjaminiHochberg, true, None);
    let correlate = pearson_kernel(3);
    let scale = scale_kernel(AdjustmentMethod::BenjaminiHochberg);
    let d1 = vec![row("flat", &[5.0, 5.0, 5.0])];
    let (result, count_before, n_evaluated, nan_filtered) =
        a.run_analysis(d1, small_dataset(), &correlate, &scale);
    assert_eq!(nan_filtered, 3);
    assert_eq!(n_evaluated, 0);
    assert_eq!(count_before, 0);
    assert!(result.is_empty());
}

#[test]
/// Matching-only mode with zero overlapping labels: nothing evaluated,
/// empty result, no error.
fn matching_only_no_overlap() {
    let a = analysis(0.0, AdjustmentMethod::BenjaminiHochberg, false, None);
    let correlate = pearson_kernel(3);
    let scale = scale_kernel(AdjustmentMethod::BenjaminiHochberg);
    let d2 = vec![
        row("other-x", &[1.0, 2.0, 3.0]),
        row("other-y", &[4.0, 6.0, 5.0]),
    ];
    let (result, count_before, n_evaluated, nan_filtered) =
        a.run_analysis(small_dataset(), d2, &correlate, &scale);
    assert_eq!(n_evaluated, 0);
    assert_eq!(nan_filtered, 0);
    assert_eq!(count_before, 0);
    assert!(result.is_empty());
}

#[test]
/// Matching-only mode evaluates exactly the label matches, independent of
/// the all-vs-all pair count.
fn matching_only_counts_matches() {
    let a = analysis(0.0, AdjustmentMethod::BenjaminiHochberg, false, None);
    let correlate = pearson_kernel(3);
    let scale = scale_kernel(AdjustmentMethod::BenjaminiHochberg);
    let d1 = vec![
        row("gene-a", &[1.0, 2.0, 3.0]),
        row("gene-b", &[4.0, 6.0, 5.0]),
        row("gene-c", &[10.0, 8.0, 9.0]),
        row("gene-a", &[2.0, 4.0, 5.0]),
    ];
    let d2 = vec![
        row("gene-a", &[1.0, 3.0, 2.0]),
        row("gene-c", &[9.0, 7.0, 8.0]),
        row("gene-d", &[4.0, 5.0, 6.0]),
    ];
    let (result, _, n_evaluated, nan_filtered) = a.run_analysis(d1, d2, &correlate, &scale);
    assert_eq!(n_evaluated, 3);
    assert_eq!(nan_filtered, 0);
    for rec in result.iter() {
        assert_eq!(rec.gene, rec.gem);
    }
}

/// A synthetic kernel with distinct statistics per pair, derived from the
/// first sample of each row.
fn synthetic_kernel() -> impl Fn(&Vec<u64>, &Vec<u64>) -> (u64, u64) {
    |xb: &Vec<u64>, yb: &Vec<u64>| {
        let x0 = f64::from_bits(xb[0]);
        let y0 = f64::from_bits(yb[0]);
        let statistic = (x0 * 10.0 + y0) / 1000.0;
        let p_value = statistic / 2.0;
        (statistic.to_bits(), p_value.to_bits())
    }
}

fn indexed_dataset(prefix: &str, count: usize) -> Vec<(String, Option<String>, Vec<u64>)> {
    (0..count)
        .map(|i| row(&format!("{}-{}", prefix, i), &[i as f64, 0.0, 0.0]))
        .collect()
}

#[test]
/// Top-5 of 100 surviving records under Bonferroni: exactly 5 records come
/// back, sorted by descending statistic magnitude, and the count before
/// truncation is 100.
fn top_n_truncates_and_sorts() {
    let a = analysis(0.0, AdjustmentMethod::Bonferroni, true, Some(5));
    let correlate = synthetic_kernel();
    let scale = scale_kernel(AdjustmentMethod::Bonferroni);
    let (result, count_before, n_evaluated, _) = a.run_analysis(
        indexed_dataset("g", 10),
        indexed_dataset("m", 10),
        &correlate,
        &scale,
    );
    assert_eq!(n_evaluated, 100);
    assert_eq!(count_before, 100);
    assert_eq!(result.len(), 5);
    let stats: Vec<f64> = result
        .iter()
        .map(|r| f64::from_bits(r.correlation.unwrap()).abs())
        .collect();
    for w in stats.windows(2) {
        assert!(w[0] >= w[1]);
    }
    assert_eq!(stats[0], (9.0 * 10.0 + 9.0) / 1000.0);
    assert_eq!(stats[4], (9.0 * 10.0 + 5.0) / 1000.0);
}

#[test]
/// The statistic threshold keeps exactly the records at or above it.
fn threshold_keeps_large_statistics() {
    let a = analysis(0.05, AdjustmentMethod::Bonferroni, true, None);
    let correlate = synthetic_kernel();
    let scale = scale_kernel(AdjustmentMethod::Bonferroni);
    let (result, count_before, n_evaluated, _) = a.run_analysis(
        indexed_dataset("g", 10),
        indexed_dataset("m", 10),
        &correlate,
        &scale,
    );
    assert_eq!(n_evaluated, 100);
    // statistic = (10 i + j) / 1000 >= 0.05 means 10 i + j >= 50.
    assert_eq!(count_before, 50);
    assert_eq!(result.len(), 50);
    for rec in result.iter() {
        assert!(f64::from_bits(rec.correlation.unwrap()).abs() >= 0.05);
    }
}

#[test]
/// Step-up monotonicity end to end: adjusted p-values read in ascending raw
/// p-value order never decrease.
fn adjusted_monotone_in_raw_order() {
    let a = analysis(0.0, AdjustmentMethod::BenjaminiHochberg, true, None);
    let correlate = pearson_kernel(3);
    let scale = scale_kernel(AdjustmentMethod::BenjaminiHochberg);
    let d1 = vec![
        row("gene-a", &[1.0, 2.0, 3.0]),
        row("gene-b", &[4.0, 6.0, 5.0]),
        row("gene-c", &[10.0, 8.0, 9.0]),
        row("gene-d", &[1.0, 5.0, 4.0]),
    ];
    let d2 = vec![
        row("mod-a", &[2.0, 2.5, 3.5]),
        row("mod-b", &[7.0, 6.0, 6.5]),
        row("mod-c", &[0.5, 1.5, 1.0]),
    ];
    let (result, _, _, _) = a.run_analysis(d1, d2, &correlate, &scale);
    let mut pairs: Vec<(f64, f64)> = result
        .iter()
        .map(|r| {
            (
                f64::from_bits(r.p_value.unwrap()),
                f64::from_bits(r.adjusted_p_value.unwrap()),
            )
        })
        .collect();
    pairs.sort_by(|x, y| x.0.partial_cmp(&y.0).unwrap());
    for w in pairs.windows(2) {
        if w[0].0 < w[1].0 {
            assert!(w[0].1 <= w[1].1);
        }
    }
}

#[test]
/// Bonferroni bound end to end: every adjusted p-value is min(raw·N, 1) and
/// so at least the raw p-value.
fn bonferroni_bounds_raw_p() {
    let a = analysis(0.0, AdjustmentMethod::Bonferroni, true, None);
    let correlate = pearson_kernel(3);
    let scale = scale_kernel(AdjustmentMethod::Bonferroni);
    let (result, _, n_evaluated, _) =
        a.run_analysis(small_dataset(), small_dataset(), &correlate, &scale);
    for rec in result.iter() {
        let raw = f64::from_bits(rec.p_value.unwrap());
        let adjusted = f64::from_bits(rec.adjusted_p_value.unwrap());
        assert_eq!(adjusted, (raw * n_evaluated as f64).min(1.0));
        assert!(adjusted >= raw);
        assert!(adjusted <= 1.0);
    }
}

#[test]
/// Determinism: the same input and configuration give the same result set
/// and counters, run after run.
fn identical_runs_agree() {
    let a = analysis(0.0, AdjustmentMethod::BenjaminiYekutieli, true, Some(4));
    let correlate = pearson_kernel(3);
    let scale = scale_kernel(AdjustmentMethod::BenjaminiYekutieli);
    let first = a.run_analysis(small_dataset(), small_dataset(), &correlate, &scale);
    let second = a.run_analysis(small_dataset(), small_dataset(), &correlate, &scale);
    assert_eq!(first.1, second.1);
    assert_eq!(first.2, second.2);
    assert_eq!(first.3, second.3);
    assert_eq!(first.0.len(), second.0.len());
    for (x, y) in first.0.iter().zip(second.0.iter()) {
        assert_eq!(x.gene, y.gene);
        assert_eq!(x.gem, y.gem);
        assert_eq!(x.correlation, y.correlation);
        assert_eq!(x.p_value, y.p_value);
        assert_eq!(x.adjusted_p_value, y.adjusted_p_value);
    }
}

#[test]
/// Matching headers pass validation; the CpG Site ID column is ignored.
fn header_validation() {
    let h = |names: &[&str]| -> Vec<String> { names.iter().map(|s| s.to_string()).collect() };
    assert!(validate_headers(&h(&["id", "s1", "s2"]), &h(&["key", "s1", "s2"]), false).is_ok());
    assert!(
        validate_headers(&h(&["id", "s1", "s2"]), &h(&["key", "cpg", "s1", "s2"]), true).is_ok()
    );
    match validate_headers(&h(&["id", "s1", "s2"]), &h(&["key", "s1"]), false) {
        Err(AnalysisError::DiffSamplesLength {
            samples_1,
            samples_2,
        }) => {
            assert_eq!(samples_1, 3);
            assert_eq!(samples_2, 2);
        }
        _ => panic!("expected a sample-length error"),
    }
    match validate_headers(&h(&["id", "s1", "s2"]), &h(&["key", "s2", "s1"]), false) {
        Err(AnalysisError::DiffSamples) => {}
        _ => panic!("expected a sample-identity error"),
    }
    assert_eq!(
        AnalysisError::EmptyDataset.description(),
        "the primary dataset has no rows"
    );
}

#[test]
/// Record accessors: builder, CpG description and statistic magnitude.
fn record_accessors() {
    let rec = CorResult::new(
        "g".to_string(),
        "m".to_string(),
        Some("site-1".to_string()),
        Some((-0.75f64).to_bits()),
        Some(0.25f64.to_bits()),
        None,
    );
    assert_eq!(rec.cpg_site_id_description(), "site-1");
    assert_eq!(f64::from_bits(rec.abs_correlation()), 0.75);
    let bare = CorResult::new("g".to_string(), "m".to_string(), None, None, None, None);
    assert_eq!(bare.cpg_site_id_description(), "");
}
