use ggca::kendall::{tau_b_counts, TauCounts};

fn bits(v: &[f64]) -> Vec<u64> {
    v.iter().map(|x| x.to_bits()).collect()
}

/// The same counts by brute force over all position pairs and value groups.
fn brute_force(x: &[f64], y: &[f64]) -> TauCounts {
    let n = x.len();
    let mut tied_x_pairs = 0u64;
    let mut tied_y_pairs = 0u64;
    let mut tied_xy_pairs = 0u64;
    let mut swaps = 0u64;
    for i in 0..n {
        for j in (i + 1)..n {
            let tx = x[i] == x[j];
            let ty = y[i] == y[j];
            if tx {
                tied_x_pairs += 1;
            }
            if ty {
                tied_y_pairs += 1;
            }
            if tx && ty {
                tied_xy_pairs += 1;
            }
            if !tx && ((x[i] < x[j] && y[i] > y[j]) || (x[j] < x[i] && y[j] > y[i])) {
                swaps += 1;
            }
        }
    }
    let group_sums = |v: &[f64]| -> (u64, u64, i64) {
        let mut seen: Vec<f64> = Vec::new();
        let mut vt = 0u64;
        let mut v1 = 0u64;
        let mut v2 = 0i64;
        for value in v.iter() {
            if seen.iter().any(|s| s == value) {
                continue;
            }
            seen.push(*value);
            let g = v.iter().filter(|w| *w == value).count() as u64;
            vt += g * (g - 1) * (2 * g + 5);
            v1 += g * (g - 1);
            let gi = g as i64;
            v2 += gi * (gi - 1) * (gi - 2);
        }
        (vt, v1, v2)
    };
    let (vt, v1_part_1, v2_part_1) = group_sums(x);
    let (vu, v1_part_2, v2_part_2) = group_sums(y);
    TauCounts {
        n,
        vt,
        vu,
        tied_x_pairs,
        tied_y_pairs,
        tied_xy_pairs,
        v1_part_1,
        v1_part_2,
        v2_part_1,
        v2_part_2,
        swaps,
    }
}

fn check(x: &[f64], y: &[f64]) {
    let got = tau_b_counts(&bits(x), &bits(y));
    let want = brute_force(x, y);
    assert_eq!(got.n, want.n);
    assert_eq!(got.vt, want.vt, "vt");
    assert_eq!(got.vu, want.vu, "vu");
    assert_eq!(got.tied_x_pairs, want.tied_x_pairs, "tied_x_pairs");
    assert_eq!(got.tied_y_pairs, want.tied_y_pairs, "tied_y_pairs");
    assert_eq!(got.tied_xy_pairs, want.tied_xy_pairs, "tied_xy_pairs");
    assert_eq!(got.v1_part_1, want.v1_part_1, "v1_part_1");
    assert_eq!(got.v1_part_2, want.v1_part_2, "v1_part_2");
    assert_eq!(got.v2_part_1, want.v2_part_1, "v2_part_1");
    assert_eq!(got.v2_part_2, want.v2_part_2, "v2_part_2");
    assert_eq!(got.swaps, want.swaps, "swaps");
}

#[test]
/// Perfect agreement: no ties, no discordances.
fn ascending_pair_has_no_swaps() {
    check(&[1.0, 2.0, 3.0, 4.0], &[10.0, 20.0, 30.0, 40.0]);
}

#[test]
/// Perfect disagreement: every non-tied pair is discordant.
fn reversed_pair_counts_all_swaps() {
    let x = [1.0, 2.0, 3.0, 4.0];
    let y = [4.0, 3.0, 2.0, 1.0];
    check(&x, &y);
    let counts = tau_b_counts(&bits(&x), &bits(&y));
    assert_eq!(counts.swaps, 6);
}

#[test]
/// Ties on both sides feed the tie-corrected accumulators.
fn ties_are_counted_per_group() {
    check(&[1.0, 1.0, 2.0, 2.0, 3.0], &[2.0, 1.0, 1.0, 3.0, 3.0]);
    check(&[1.0, 1.0, 1.0], &[2.0, 2.0, 2.0]);
    check(&[-1.5, 0.0, 0.0, 2.5, -1.5, 7.0], &[3.0, 3.0, -2.0, 1.0, 1.0, 1.0]);
}

#[test]
/// A pseudo-random vector pair agrees with the brute force on every count.
fn mixed_data_agrees_with_brute_force() {
    let x: Vec<f64> = (0..40u32).map(|i| ((i * 17 + 5) % 23) as f64 / 7.0 - 1.0).collect();
    let y: Vec<f64> = (0..40u32).map(|i| ((i * 11 + 2) % 19) as f64 / 5.0 - 1.5).collect();
    check(&x, &y);
}

#[test]
/// Empty and single-entry inputs produce all-zero counts.
fn degenerate_lengths() {
    check(&[], &[]);
    check(&[4.2], &[1.7]);
}
