//! The analysis pipeline: validate the datasets' sample headers, evaluate
//! every pair of rows, drop degenerate results, rank and adjust the
//! p-values, filter by the statistic threshold, and optionally keep the top
//! N records by statistic magnitude.
//!
//! The numeric kernels — the correlation of two sample vectors and the
//! rank-dependent scaling of a raw p-value — are supplied by the caller as
//! closures over bit patterns; everything the pipeline decides from their
//! results is verified here.

use crate::adjustment::{
    adjust_seq, clamp_step, get_adjustment_method, lemma_adjusted_fold_push, AdjustmentMethod,
};
use crate::bits;
use crate::correlation::{views, CorResult, CorResultV};
use crate::external_sort::{opt_bits, rec_key, sort_spec, ExternalSorter, SortKey};
use crate::types::TupleExpressionValues;
use vstd::prelude::*;

verus! {

/// A fatal analysis error: the two datasets do not fit together, or one of
/// them cannot be read.
pub enum AnalysisError {
    /// The datasets carry different numbers of samples.
    DiffSamplesLength { samples_1: usize, samples_2: usize },
    /// The datasets carry the same number of samples under different names.
    DiffSamples,
    /// The primary dataset has no rows.
    EmptyDataset,
}

impl AnalysisError {
    /// The error's display text.
    pub fn description(&self) -> (r: String)
        ensures
            self is DiffSamplesLength ==> r@ == "samples in datasets have different lengths"@,
            self is DiffSamples ==> r@ == "samples in datasets are different"@,
            self is EmptyDataset ==> r@ == "the primary dataset has no rows"@,
    {
        match self {
            AnalysisError::DiffSamplesLength { .. } => {
                "samples in datasets have different lengths".to_owned()
            }
            AnalysisError::DiffSamples => "samples in datasets are different".to_owned(),
            AnalysisError::EmptyDataset => "the primary dataset has no rows".to_owned(),
        }
    }
}

/// The header images: each name as a character sequence.
pub open spec fn header_views(s: Seq<String>) -> Seq<Seq<char>> {
    s.map_values(|h: String| h@)
}

/// The second dataset's header with the secondary-annotation column (its
/// second entry) removed when it carries one.
pub open spec fn adjusted_header(h2: Seq<Seq<char>>, gem_contains_cpg: bool) -> Seq<Seq<char>> {
    if gem_contains_cpg {
        h2.remove(1)
    } else {
        h2
    }
}

/// Validates the sample headers of the two datasets: after dropping the
/// secondary-annotation column from the second header (when present), both
/// headers must agree past their leading label column, first in count and
/// then name by name.
pub fn validate_headers(
    headers_1: &Vec<String>,
    headers_2: &Vec<String>,
    gem_contains_cpg: bool,
) -> (r: Result<(), AnalysisError>)
    requires
        headers_1@.len() >= 1,
        gem_contains_cpg ==> headers_2@.len() >= 2,
    ensures
        ({
            let h1 = header_views(headers_1@);
            let h2 = adjusted_header(header_views(headers_2@), gem_contains_cpg);
            &&& (r is Ok <==> h1.len() == h2.len() && h1.skip(1) == h2.skip(1))
            &&& (h1.len() != h2.len() <==> (r matches Err(
                AnalysisError::DiffSamplesLength { samples_1, samples_2 },
            ) && samples_1 == h1.len() && samples_2 == h2.len()))
            &&& (h1.len() == h2.len() && h1.skip(1) != h2.skip(1) <==> (r matches Err(e)
                && e is DiffSamples))
        }),
{
    let ghost h1 = header_views(headers_1@);
    let ghost h2 = adjusted_header(header_views(headers_2@), gem_contains_cpg);
    let len_1 = headers_1.len();
    let len_2 = if gem_contains_cpg {
        headers_2.len() - 1
    } else {
        headers_2.len()
    };
    proof {
        assert(h1.len() == len_1);
        assert(h2.len() == len_2);
    }
    if len_1 != len_2 {
        return Err(AnalysisError::DiffSamplesLength { samples_1: len_1, samples_2: len_2 });
    }
    let mut i: usize = 1;
    while i < len_1
        invariant
            1 <= i <= len_1,
            len_1 == h1.len(),
            len_1 == len_2,
            len_2 == h2.len(),
            h1 == header_views(headers_1@),
            h2 == adjusted_header(header_views(headers_2@), gem_contains_cpg),
            headers_1@.len() == len_1,
            gem_contains_cpg ==> headers_2@.len() == len_2 + 1,
            !gem_contains_cpg ==> headers_2@.len() == len_2,
            forall|m: int| 1 <= m < i ==> h1[m] == h2[m],
        decreases len_1 - i,
    {
        let j = if gem_contains_cpg {
            i + 1
        } else {
            i
        };
        proof {
            assert(h2[i as int] == headers_2@[j as int]@);
            assert(h1[i as int] == headers_1@[i as int]@);
        }
        let names_equal = headers_1[i].eq(&headers_2[j]);
        if !names_equal {
            proof {
                assert(h1[i as int] != h2[i as int]);
                assert(h1.skip(1)[i - 1] == h1[i as int]);
                assert(h2.skip(1)[i - 1] == h2[i as int]);
            }
            return Err(AnalysisError::DiffSamples);
        }
        i = i + 1;
    }
    proof {
        assert forall|m: int| 0 <= m < h1.skip(1).len() implies h1.skip(1)[m] == h2.skip(1)[m] by {
            assert(h1.skip(1)[m] == h1[m + 1]);
            assert(h2.skip(1)[m] == h2[m + 1]);
        }
        assert(h1.skip(1) =~= h2.skip(1));
    }
    Ok(())
}

/// How many rows of `rows` carry exactly this primary label.
pub open spec fn row_matches(label: Seq<char>, rows: Seq<TupleExpressionValues>) -> nat
    decreases rows.len(),
{
    if rows.len() == 0 {
        0
    } else {
        row_matches(label, rows.drop_last()) + if rows.last().0@ == label {
            1nat
        } else {
            0nat
        }
    }
}

/// How many pairs of rows, one from each dataset, share their primary
/// label exactly.
pub open spec fn matching_pairs(
    rows_1: Seq<TupleExpressionValues>,
    rows_2: Seq<TupleExpressionValues>,
) -> nat
    decreases rows_1.len(),
{
    if rows_1.len() == 0 {
        0
    } else {
        matching_pairs(rows_1.drop_last(), rows_2) + row_matches(rows_1.last().0@, rows_2)
    }
}

/// How many records carry a p-value.
pub open spec fn some_p_count(s: Seq<CorResultV>) -> nat
    decreases s.len(),
{
    if s.len() == 0 {
        0
    } else {
        some_p_count(s.drop_last()) + if s.last().p_value is Some {
            1nat
        } else {
            0nat
        }
    }
}

/// What one evaluated record must look like: pair k of the row-major
/// cartesian product carries the labels of its two rows, no adjusted
/// p-value yet, and a statistic and p-value exactly when the pair was
/// computed — always in all-vs-all mode, on a primary-label match in
/// matching-only mode.
pub open spec fn pair_record_ok(
    rv: CorResultV,
    rows_1: Seq<TupleExpressionValues>,
    rows_2: Seq<TupleExpressionValues>,
    k: int,
    is_all_vs_all: bool,
) -> bool {
    let m = rows_2.len() as int;
    let i = k / m;
    let j = k % m;
    &&& rv.gene == rows_1[i].0@
    &&& rv.gem == rows_2[j].0@
    &&& rv.cpg_site_id == (match rows_2[j].1 {
        Some(c) => Some(c@),
        None => None::<Seq<char>>,
    })
    &&& rv.adjusted_p_value is None
    &&& (rv.correlation is Some <==> rv.p_value is Some)
    &&& (rv.p_value is Some <==> (is_all_vs_all || rows_1[i].0@ == rows_2[j].0@))
}

/// The record's statistic and p-value are a possible return of the
/// correlation kernel on its pair's sample vectors: whenever pair k was
/// computed, the stored values came out of one call of `correlate` on the
/// two rows' values.
pub open spec fn pair_from_kernel<F: Fn(&Vec<u64>, &Vec<u64>) -> (u64, u64)>(
    rv: CorResultV,
    rows_1: Seq<TupleExpressionValues>,
    rows_2: Seq<TupleExpressionValues>,
    k: int,
    correlate: F,
) -> bool {
    let m = rows_2.len() as int;
    let i = k / m;
    let j = k % m;
    rv.p_value is Some ==> call_ensures(
        correlate,
        (&rows_1[i].2, &rows_2[j].2),
        (rv.correlation->0, rv.p_value->0),
    )
}

/// Evaluates the full cartesian product of the two datasets' rows in
/// row-major order: in all-vs-all mode every pair gets a statistic and
/// p-value from the correlation kernel; in matching-only mode pairs with
/// different primary labels get a null placeholder instead.
#[verifier::loop_isolation(false)]
pub fn evaluate_pairs<F: Fn(&Vec<u64>, &Vec<u64>) -> (u64, u64)>(
    rows_1: &Vec<TupleExpressionValues>,
    rows_2: &Vec<TupleExpressionValues>,
    is_all_vs_all: bool,
    correlate: &F,
) -> (r: Vec<CorResult>)
    requires
        rows_1@.len() * rows_2@.len() <= usize::MAX,
        forall|a: &Vec<u64>, b: &Vec<u64>| correlate.requires((a, b)),
    ensures
        r@.len() == rows_1@.len() * rows_2@.len(),
        some_p_count(views(r@)) == (if is_all_vs_all {
            rows_1@.len() * rows_2@.len()
        } else {
            matching_pairs(rows_1@, rows_2@)
        }),
        forall|k: int|
            #![trigger views(r@)[k]]
            0 <= k < r@.len() ==> pair_record_ok(views(r@)[k], rows_1@, rows_2@, k, is_all_vs_all),
        forall|k: int|
            #![trigger views(r@)[k]]
            0 <= k < r@.len() ==> pair_from_kernel(views(r@)[k], rows_1@, rows_2@, k, *correlate),
{
    let n = rows_1.len();
    let m = rows_2.len();
    let mut out: Vec<CorResult> = Vec::new();
    let mut i: usize = 0;
    while i < n
        invariant
            0 <= i <= n,
            out@.len() == i * m,
            some_p_count(views(out@)) == (if is_all_vs_all {
                (i * m) as nat
            } else {
                matching_pairs(rows_1@.subrange(0, i as int), rows_2@)
            }),
            forall|k: int|
                #![trigger views(out@)[k]]
                0 <= k < out@.len() ==> pair_record_ok(
                    views(out@)[k],
                    rows_1@,
                    rows_2@,
                    k,
                    is_all_vs_all,
                ),
            forall|k: int|
                #![trigger views(out@)[k]]
                0 <= k < out@.len() ==> pair_from_kernel(
                    views(out@)[k],
                    rows_1@,
                    rows_2@,
                    k,
                    *correlate,
                ),
        decreases n - i,
    {
        proof {
            assert(i * m + m == (i + 1) * m) by (nonlinear_arith);
            assert((i + 1) * m <= n * m) by (nonlinear_arith)
                requires
                    0 <= i < n,
                    0 <= m,
            ;
        }
        let mut j: usize = 0;
        while j < m
            invariant
                0 <= j <= m,
                0 <= i < n,
                out@.len() == i * m + j,
                i * m + m <= n * m,
                some_p_count(views(out@)) == (if is_all_vs_all {
                    (i * m + j) as nat
                } else {
                    matching_pairs(rows_1@.subrange(0, i as int), rows_2@) + row_matches(
                        rows_1@[i as int].0@,
                        rows_2@.subrange(0, j as int),
                    )
                }),
                forall|k: int|
                    #![trigger views(out@)[k]]
                    0 <= k < out@.len() ==> pair_record_ok(
                        views(out@)[k],
                        rows_1@,
                        rows_2@,
                        k,
                        is_all_vs_all,
                    ),
                forall|k: int|
                    #![trigger views(out@)[k]]
                    0 <= k < out@.len() ==> pair_from_kernel(
                        views(out@)[k],
                        rows_1@,
                        rows_2@,
                        k,
                        *correlate,
                    ),
            decreases m - j,
        {
            let ghost pre = out@;
            let gene = rows_1[i].0.clone();
            let gem = rows_2[j].0.clone();
            let cpg_site_id = match &rows_2[j].1 {
                Some(c) => Some(c.clone()),
                None => None,
            };
            let matches_label = gene.eq(&gem);
            let ghost computed: bool = is_all_vs_all || matches_label;
            let ghost mut kernel_out: (u64, u64) = (0, 0);
            let record = if is_all_vs_all || matches_label {
                let xr = &rows_1[i].2;
                let yr = &rows_2[j].2;
                let (correlation, p_value) = correlate(xr, yr);
                proof {
                    kernel_out = (correlation, p_value);
                    assert(*xr == rows_1@[i as int].2);
                    assert(*yr == rows_2@[j as int].2);
                    assert(call_ensures(*correlate, (xr, yr), (correlation, p_value)));
                }
                CorResult {
                    gene,
                    gem,
                    cpg_site_id,
                    correlation: Some(correlation),
                    p_value: Some(p_value),
                    adjusted_p_value: None,
                }
            } else {
                CorResult {
                    gene,
                    gem,
                    cpg_site_id,
                    correlation: None,
                    p_value: None,
                    adjusted_p_value: None,
                }
            };
            out.push(record);
            proof {
                let k0 = i * m + j;
                vstd::arithmetic::div_mod::lemma_fundamental_div_mod_converse(
                    k0 as int,
                    m as int,
                    i as int,
                    j as int,
                );
                assert(views(out@) =~= views(pre).push(record@));
                assert(views(out@).drop_last() =~= views(pre));
                assert(pair_record_ok(record@, rows_1@, rows_2@, k0 as int, is_all_vs_all));
                assert(pair_from_kernel(record@, rows_1@, rows_2@, k0 as int, *correlate)) by {
                    if record@.p_value is Some {
                        assert(record@.correlation->0 == kernel_out.0);
                        assert(record@.p_value->0 == kernel_out.1);
                    }
                }
                assert forall|k: int|
                    #![trigger views(out@)[k]]
                    0 <= k < out@.len() implies pair_record_ok(
                    views(out@)[k],
                    rows_1@,
                    rows_2@,
                    k,
                    is_all_vs_all,
                ) && pair_from_kernel(views(out@)[k], rows_1@, rows_2@, k, *correlate) by {
                    if k < pre.len() {
                        assert(views(out@)[k] == views(pre)[k]);
                    } else {
                        assert(views(out@)[k] == record@);
                    }
                }
                if !is_all_vs_all {
                    assert(rows_2@.subrange(0, j + 1).drop_last() =~= rows_2@.subrange(
                        0,
                        j as int,
                    ));
                    assert(rows_2@.subrange(0, j + 1).last() == rows_2@[j as int]);
                }
            }
            j = j + 1;
        }
        proof {
            if !is_all_vs_all {
                assert(rows_2@.subrange(0, m as int) =~= rows_2@);
                assert(rows_1@.subrange(0, i + 1).drop_last() =~= rows_1@.subrange(0, i as int));
                assert(rows_1@.subrange(0, i + 1).last() == rows_1@[i as int]);
            }
        }
        i = i + 1;
    }
    proof {
        assert(rows_1@.subrange(0, n as int) =~= rows_1@);
    }
    out
}

/// The record survives into ranking: it was computed (label match in
/// matching-only mode), and its p-value is a number.
pub open spec fn survives(rv: CorResultV, is_all_vs_all: bool) -> bool {
    &&& (is_all_vs_all || rv.gene == rv.gem)
    &&& rv.p_value is Some
    &&& !bits::is_nan_bits(opt_bits(rv.p_value))
}

/// The surviving records, in order.
pub open spec fn filter_survivors(s: Seq<CorResultV>, is_all_vs_all: bool) -> Seq<CorResultV>
    decreases s.len(),
{
    if s.len() == 0 {
        Seq::empty()
    } else {
        filter_survivors(s.drop_last(), is_all_vs_all) + if survives(s.last(), is_all_vs_all) {
            seq![s.last()]
        } else {
            Seq::empty()
        }
    }
}

/// How many computed records carried a NaN p-value.
pub open spec fn nan_p_count(s: Seq<CorResultV>) -> nat
    decreases s.len(),
{
    if s.len() == 0 {
        0
    } else {
        nan_p_count(s.drop_last()) + if s.last().p_value is Some && bits::is_nan_bits(
            opt_bits(s.last().p_value),
        ) {
            1nat
        } else {
            0nat
        }
    }
}

/// Drops matching-only placeholders and NaN-valued records, counting the
/// latter: the one aggregated warning the run reports instead of
/// per-record errors.
#[verifier::loop_isolation(false)]
pub fn filter_and_count(v: Vec<CorResult>, is_all_vs_all: bool) -> (r: (Vec<CorResult>, usize))
    requires
        forall|k: int|
            #![trigger views(v@)[k]]
            0 <= k < v@.len() ==> (views(v@)[k].p_value is Some ==> (is_all_vs_all || views(
                v@,
            )[k].gene == views(v@)[k].gem)),
    ensures
        views(r.0@) == filter_survivors(views(v@), is_all_vs_all),
        r.1 as nat == nan_p_count(views(v@)),
        r.0@.len() + r.1 == some_p_count(views(v@)),
        forall|k: int|
            #![trigger views(r.0@)[k]]
            0 <= k < r.0@.len() ==> survives(views(r.0@)[k], is_all_vs_all),
        forall|k: int|
            #![trigger views(r.0@)[k]]
            0 <= k < r.0@.len() ==> exists|p: int|
                0 <= p < v@.len() && views(r.0@)[k] == views(v@)[p],
{
    let ghost v0 = views(v@);
    let total = v.len();
    let mut v = v;
    let mut out: Vec<CorResult> = Vec::new();
    let mut nan_count: usize = 0;
    let ghost c: int = 0;
    while v.len() > 0
        invariant
            0 <= c <= v0.len(),
            views(v@) == v0.skip(c),
            views(out@) == filter_survivors(v0.subrange(0, c), is_all_vs_all),
            total == v0.len(),
            nan_count <= c,
            nan_count as nat == nan_p_count(v0.subrange(0, c)),
            out@.len() + nan_count == some_p_count(v0.subrange(0, c)),
            forall|k: int|
                #![trigger views(out@)[k]]
                0 <= k < out@.len() ==> survives(views(out@)[k], is_all_vs_all),
            forall|k: int|
                #![trigger views(out@)[k]]
                0 <= k < out@.len() ==> exists|p: int| 0 <= p < v0.len() && views(out@)[k] == v0[p],
        decreases v@.len(),
    {
        let ghost pre = v@;
        let rec = v.remove(0);
        proof {
            assert(views(pre)[0] == rec@);
            assert(v0.skip(c)[0] == v0[c]);
            assert(views(v@) =~= views(pre).drop_first());
            assert(views(v@) =~= v0.skip(c + 1));
            assert(v0.subrange(0, c + 1).drop_last() =~= v0.subrange(0, c));
            assert(v0.subrange(0, c + 1).last() == v0[c]);
        }
        let considered = if is_all_vs_all {
            true
        } else {
            rec.gene.eq(&rec.gem)
        };
        if considered {
            let is_nan = match &rec.p_value {
                Some(p) => bits::is_nan_bits_exec(*p),
                None => false,
            };
            let has_p = match &rec.p_value {
                Some(_) => true,
                None => false,
            };
            if has_p && is_nan {
                nan_count = nan_count + 1;
            } else if has_p {
                let ghost outpre = out@;
                out.push(rec);
                proof {
                    assert(views(out@) =~= views(outpre).push(v0[c]));
                    assert(views(out@) =~= filter_survivors(v0.subrange(0, c + 1), is_all_vs_all));
                }
            }
        }
        proof {
            c = c + 1;
        }
    }
    proof {
        assert(v0.subrange(0, v0.len() as int) =~= v0);
    }
    (out, nan_count)
}

/// The adjusted values come from the scale kernel: `scaled` is a sequence
/// of possible `scale` outputs for the successive (raw p-value, rank, N)
/// arguments, and every output record's adjusted p-value is the selected
/// method's clamp of it — the running-minimum fold for the step-up methods,
/// the plain cap for Bonferroni.
pub open spec fn scaled_trace<G: Fn(u64, usize, usize) -> u64>(
    scaled: Seq<u64>,
    input: Seq<CorResultV>,
    output: Seq<CorResultV>,
    scale: G,
    adjustment_method: AdjustmentMethod,
    total_number_of_elements: usize,
) -> bool {
    &&& scaled.len() == input.len()
    &&& forall|k: int|
        #![trigger scaled[k]]
        0 <= k < scaled.len() ==> call_ensures(
            scale,
            (opt_bits(input[k].p_value), k as usize, total_number_of_elements),
            scaled[k],
        )
    &&& forall|k: int|
        #![trigger output[k]]
        0 <= k < output.len() ==> output[k].adjusted_p_value == Some(
            adjust_seq(scaled, !(adjustment_method is Bonferroni))[k],
        )
}

/// The two records agree on everything but the adjusted p-value.
pub open spec fn same_core(a: CorResultV, b: CorResultV) -> bool {
    &&& a.gene == b.gene
    &&& a.gem == b.gem
    &&& a.cpg_site_id == b.cpg_site_id
    &&& a.correlation == b.correlation
    &&& a.p_value == b.p_value
}

/// Adjusts every record's p-value in rank order: rank k gets the caller's
/// scaling of its raw p-value, clamped by the selected method against one
/// and — for the step-up methods — against the running minimum, which makes
/// the adjusted values non-increasing along the traversal.
#[verifier::loop_isolation(false)]
pub fn adjust_all<G: Fn(u64, usize, usize) -> u64>(
    v: Vec<CorResult>,
    scale: &G,
    adjustment_method: &AdjustmentMethod,
    total_number_of_elements: usize,
) -> (r: Vec<CorResult>)
    requires
        forall|p: u64, rank: usize, n: usize| scale.requires((p, rank, n)),
        forall|k: int| #![trigger views(v@)[k]] 0 <= k < v@.len() ==> views(v@)[k].p_value is Some,
    ensures
        r@.len() == v@.len(),
        forall|k: int|
            #![trigger views(r@)[k]]
            0 <= k < r@.len() ==> same_core(views(r@)[k], views(v@)[k]) && views(
                r@,
            )[k].adjusted_p_value is Some && bits::le_bits(
                opt_bits(views(r@)[k].adjusted_p_value),
                bits::ONE_BITS,
            ),
        !(adjustment_method is Bonferroni) ==> forall|i: int, j: int|
            #![trigger views(r@)[i], views(r@)[j]]
            0 <= i <= j < r@.len() ==> bits::le_bits(
                opt_bits(views(r@)[j].adjusted_p_value),
                opt_bits(views(r@)[i].adjusted_p_value),
            ),
        exists|scaled: Seq<u64>| scaled_trace(
            scaled,
            views(v@),
            views(r@),
            *scale,
            *adjustment_method,
            total_number_of_elements,
        ),
{
    let ghost v0 = views(v@);
    let total = v.len();
    let mut v = v;
    let mut adjustment_struct = get_adjustment_method(adjustment_method, total_number_of_elements);
    let mut out: Vec<CorResult> = Vec::new();
    let mut rank: usize = 0;
    let ghost tracks = !(adjustment_method is Bonferroni);
    let ghost mut scaled_acc: Seq<u64> = Seq::empty();
    while v.len() > 0
        invariant
            total == v0.len(),
            0 <= rank <= v0.len(),
            views(v@) == v0.skip(rank as int),
            out@.len() == rank,
            tracks == !(adjustment_method is Bonferroni),
            scaled_acc.len() == rank,
            forall|k: int|
                #![trigger scaled_acc[k]]
                0 <= k < rank ==> call_ensures(
                    *scale,
                    (opt_bits(v0[k].p_value), k as usize, total_number_of_elements),
                    scaled_acc[k],
                ),
            forall|k: int|
                #![trigger views(out@)[k]]
                0 <= k < rank ==> views(out@)[k].adjusted_p_value == Some(
                    adjust_seq(scaled_acc, tracks)[k],
                ),
            adjustment_struct.prev() == (if tracks && rank > 0 {
                adjust_seq(scaled_acc, tracks)[rank - 1]
            } else {
                bits::MAX_BITS
            }),
            adjustment_struct.tracks_running_min() == !(adjustment_method is Bonferroni),
            forall|k: int|
                #![trigger views(out@)[k]]
                0 <= k < out@.len() ==> same_core(views(out@)[k], v0[k]) && views(
                    out@,
                )[k].adjusted_p_value is Some && bits::le_bits(
                    opt_bits(views(out@)[k].adjusted_p_value),
                    bits::ONE_BITS,
                ),
            adjustment_struct.tracks_running_min() ==> forall|k: int|
                #![trigger views(out@)[k]]
                0 <= k < out@.len() ==> bits::le_bits(
                    adjustment_struct.prev(),
                    opt_bits(views(out@)[k].adjusted_p_value),
                ),
            adjustment_struct.tracks_running_min() ==> forall|i: int, j: int|
                #![trigger views(out@)[i], views(out@)[j]]
                0 <= i <= j < out@.len() ==> bits::le_bits(
                    opt_bits(views(out@)[j].adjusted_p_value),
                    opt_bits(views(out@)[i].adjusted_p_value),
                ),
        decreases v@.len(),
    {
        let ghost pre = v@;
        let rec = v.remove(0);
        proof {
            assert(views(pre)[0] == rec@);
            assert(v0.skip(rank as int)[0] == v0[rank as int]);
            assert(views(v@) =~= views(pre).drop_first());
            assert(views(v@) =~= v0.skip(rank as int + 1));
        }
        let p_value = match &rec.p_value {
            Some(p) => *p,
            None => 0,
        };
        proof {
            assert(p_value == opt_bits(v0[rank as int].p_value));
        }
        let scaled = scale(p_value, rank, total_number_of_elements);
        let q_value = adjustment_struct.adjust(scaled, rank);
        let ghost scaled_pre = scaled_acc;
        proof {
            scaled_acc = scaled_acc.push(scaled);
            if tracks {
                lemma_adjusted_fold_push(scaled_pre, scaled, bits::MAX_BITS);
                crate::adjustment::lemma_adjusted_fold_bounded(scaled_pre, bits::MAX_BITS);
                if rank > 0 {
                    assert(adjust_seq(scaled_pre, tracks).last() == adjust_seq(
                        scaled_pre,
                        tracks,
                    )[rank - 1]);
                }
                assert(adjust_seq(scaled_acc, tracks) =~= adjust_seq(scaled_pre, tracks).push(
                    q_value,
                ));
            } else {
                assert forall|k: int| 0 <= k < rank implies adjust_seq(scaled_acc, tracks)[k]
                    == adjust_seq(scaled_pre, tracks)[k] by {
                    assert(scaled_acc[k] == scaled_pre[k]);
                }
                assert(adjust_seq(scaled_acc, tracks)[rank as int] == clamp_step(
                    scaled,
                    bits::MAX_BITS,
                ));
            }
            assert forall|k: int|
                #![trigger scaled_acc[k]]
                0 <= k < rank + 1 implies call_ensures(
                *scale,
                (opt_bits(v0[k].p_value), k as usize, total_number_of_elements),
                scaled_acc[k],
            ) by {
                if k < rank {
                    assert(scaled_acc[k] == scaled_pre[k]);
                    assert(call_ensures(
                        *scale,
                        (opt_bits(v0[k].p_value), k as usize, total_number_of_elements),
                        scaled_pre[k],
                    ));
                }
            }
        }
        let ghost outpre = out@;
        out.push(
            CorResult {
                gene: rec.gene,
                gem: rec.gem,
                cpg_site_id: rec.cpg_site_id,
                correlation: rec.correlation,
                p_value: rec.p_value,
                adjusted_p_value: Some(q_value),
            },
        );
        proof {
            assert(views(out@) =~= views(outpre).push(views(out@)[outpre.len() as int]));
            assert(same_core(views(out@)[outpre.len() as int], v0[rank as int]));
        }
        rank = rank + 1;
    }
    proof {
        assert(scaled_trace(
            scaled_acc,
            v0,
            views(out@),
            *scale,
            *adjustment_method,
            total_number_of_elements,
        ));
    }
    out
}

/// The record's statistic magnitude reaches the configured threshold.
pub open spec fn passes_threshold(rv: CorResultV, threshold: u64) -> bool {
    bits::le_bits(threshold, opt_bits(rv.correlation) & bits::MAG_MASK)
}

/// The records whose statistic magnitude reaches the threshold, in order.
pub open spec fn filter_threshold(s: Seq<CorResultV>, threshold: u64) -> Seq<CorResultV>
    decreases s.len(),
{
    if s.len() == 0 {
        Seq::empty()
    } else {
        filter_threshold(s.drop_last(), threshold) + if passes_threshold(s.last(), threshold) {
            seq![s.last()]
        } else {
            Seq::empty()
        }
    }
}

/// Keeps the records whose statistic magnitude reaches the threshold.
#[verifier::loop_isolation(false)]
pub fn threshold_filter(v: Vec<CorResult>, threshold: u64) -> (r: Vec<CorResult>)
    requires
        forall|k: int|
            #![trigger views(v@)[k]]
            0 <= k < v@.len() ==> views(v@)[k].correlation is Some,
    ensures
        views(r@) == filter_threshold(views(v@), threshold),
        r@.len() <= v@.len(),
        forall|k: int|
            #![trigger views(r@)[k]]
            0 <= k < r@.len() ==> passes_threshold(views(r@)[k], threshold),
        forall|k: int|
            #![trigger views(r@)[k]]
            0 <= k < r@.len() ==> exists|p: int| 0 <= p < v@.len() && views(r@)[k] == views(v@)[p],
{
    let ghost v0 = views(v@);
    let mut v = v;
    let mut out: Vec<CorResult> = Vec::new();
    let ghost c: int = 0;
    while v.len() > 0
        invariant
            0 <= c <= v0.len(),
            views(v@) == v0.skip(c),
            out@.len() <= c,
            views(out@) == filter_threshold(v0.subrange(0, c), threshold),
            forall|k: int|
                #![trigger views(out@)[k]]
                0 <= k < out@.len() ==> passes_threshold(views(out@)[k], threshold),
            forall|k: int|
                #![trigger views(out@)[k]]
                0 <= k < out@.len() ==> exists|p: int| 0 <= p < v0.len() && views(out@)[k] == v0[p],
        decreases v@.len(),
    {
        let ghost pre = v@;
        let rec = v.remove(0);
        proof {
            assert(views(pre)[0] == rec@);
            assert(v0.skip(c)[0] == v0[c]);
            assert(views(v@) =~= views(pre).drop_first());
            assert(views(v@) =~= v0.skip(c + 1));
            assert(v0.subrange(0, c + 1).drop_last() =~= v0.subrange(0, c));
            assert(v0.subrange(0, c + 1).last() == v0[c]);
        }
        let abs = rec.abs_correlation();
        if bits::le_bits_exec(threshold, abs) {
            let ghost outpre = out@;
            out.push(rec);
            proof {
                assert(views(out@) =~= views(outpre).push(v0[c]));
                assert(views(out@) =~= filter_threshold(v0.subrange(0, c + 1), threshold));
            }
        }
        proof {
            c = c + 1;
        }
    }
    proof {
        assert(v0.subrange(0, v0.len() as int) =~= v0);
    }
    out
}

/// The record's labels come from one pair of dataset rows.
pub open spec fn labels_from(
    rv: CorResultV,
    rows_1: Seq<TupleExpressionValues>,
    rows_2: Seq<TupleExpressionValues>,
) -> bool {
    exists|i: int, j: int|
        #![trigger rows_1[i], rows_2[j]]
        0 <= i < rows_1.len() && 0 <= j < rows_2.len() && rv.gene == rows_1[i].0@ && rv.gem
            == rows_2[j].0@ && rv.cpg_site_id == (match rows_2[j].1 {
            Some(c) => Some(c@),
            None => None::<Seq<char>>,
        })
}

/// What holds of every record from the NaN filter on: it was computed, its
/// p-value is a number, in matching-only mode its labels agree, and both
/// labels come from the datasets.
pub open spec fn stage_ok(
    rv: CorResultV,
    rows_1: Seq<TupleExpressionValues>,
    rows_2: Seq<TupleExpressionValues>,
    is_all_vs_all: bool,
) -> bool {
    &&& rv.correlation is Some
    &&& rv.p_value is Some
    &&& !bits::is_nan_bits(opt_bits(rv.p_value))
    &&& (is_all_vs_all || rv.gene == rv.gem)
    &&& labels_from(rv, rows_1, rows_2)
}

/// A pair index of the row-major cartesian product decomposes into its two
/// row indices.
proof fn lemma_pair_index(p: int, n: int, m: int)
    requires
        0 <= p,
        0 < m,
        p < n * m,
    ensures
        0 <= p / m < n,
        0 <= p % m < m,
{
    vstd::arithmetic::div_mod::lemma_fundamental_div_mod(p, m);
    vstd::arithmetic::div_mod::lemma_mod_bound(p, m);
    assert(p / m < n) by (nonlinear_arith)
        requires
            0 < m,
            m * (p / m) + p % m == p,
            0 <= p % m < m,
            p < n * m,
    ;
    assert(0 <= p / m) by (nonlinear_arith)
        requires
            0 < m,
            m * (p / m) + p % m == p,
            0 <= p % m < m,
            0 <= p,
    ;
}

/// The record with its adjusted p-value filled in.
pub open spec fn with_adjusted(rv: CorResultV, q: u64) -> CorResultV {
    CorResultV {
        gene: rv.gene,
        gem: rv.gem,
        cpg_site_id: rv.cpg_site_id,
        correlation: rv.correlation,
        p_value: rv.p_value,
        adjusted_p_value: Some(q),
    }
}

/// The ranked records with the run's adjusted values filled in, rank by
/// rank.
pub open spec fn adjusted_records(ranked: Seq<CorResultV>, qs: Seq<u64>) -> Seq<CorResultV> {
    Seq::new(ranked.len(), |k: int| with_adjusted(ranked[k], qs[k]))
}

/// The whole pipeline, stage by stage: `ev` is the evaluated cartesian
/// product (labels pinned, statistic and p-value out of the correlation
/// kernel), `scaled` the scale kernel's outputs in rank order. The counters
/// and the returned sequence are exactly what the stages make of them:
/// survivors of the NaN filter, ranked by descending p-value (except under
/// Bonferroni), adjusted by the method's clamp of `scaled`, kept at or
/// above the threshold, and — under a cap — the leading records of the
/// magnitude-descending sort.
pub open spec fn pipeline_trace<
    F: Fn(&Vec<u64>, &Vec<u64>) -> (u64, u64),
    G: Fn(u64, usize, usize) -> u64,
>(
    adjustment_method: AdjustmentMethod,
    correlation_threshold: u64,
    keep_top_n: Option<usize>,
    is_all_vs_all: bool,
    rows_1: Seq<TupleExpressionValues>,
    rows_2: Seq<TupleExpressionValues>,
    correlate: F,
    scale: G,
    ev: Seq<CorResultV>,
    scaled: Seq<u64>,
    result: Seq<CorResultV>,
    count_before_truncation: usize,
    n_evaluated: usize,
    nan_filtered: usize,
) -> bool {
    let survivors = filter_survivors(ev, is_all_vs_all);
    let ranked = if adjustment_method is Bonferroni {
        survivors
    } else {
        sort_spec(survivors, SortKey::PValueDescending)
    };
    let qs = adjust_seq(scaled, !(adjustment_method is Bonferroni));
    let adjusted = adjusted_records(ranked, qs);
    let kept = filter_threshold(adjusted, correlation_threshold);
    &&& ev.len() == rows_1.len() * rows_2.len()
    &&& (forall|k: int|
        #![trigger ev[k]]
        0 <= k < ev.len() ==> pair_record_ok(ev[k], rows_1, rows_2, k, is_all_vs_all))
    &&& (forall|k: int|
        #![trigger ev[k]]
        0 <= k < ev.len() ==> pair_from_kernel(ev[k], rows_1, rows_2, k, correlate))
    &&& nan_filtered == nan_p_count(ev)
    &&& n_evaluated == survivors.len()
    &&& scaled.len() == ranked.len()
    &&& (forall|k: int|
        #![trigger scaled[k]]
        0 <= k < scaled.len() ==> call_ensures(
            scale,
            (opt_bits(ranked[k].p_value), k as usize, n_evaluated),
            scaled[k],
        ))
    &&& count_before_truncation == kept.len()
    &&& result == (match keep_top_n {
        Some(top_n) => sort_spec(kept, SortKey::AbsCorrelationDescending).subrange(
            0,
            if top_n < kept.len() {
                top_n as int
            } else {
                kept.len() as int
            },
        ),
        None => kept,
    })
}

/// There are kernel outputs under which the run is exactly one pass of
/// the staged pipeline: an evaluated stream and a scaled sequence
/// witnessing `pipeline_trace`.
pub open spec fn pipeline_trace_exists<
    F: Fn(&Vec<u64>, &Vec<u64>) -> (u64, u64),
    G: Fn(u64, usize, usize) -> u64,
>(
    adjustment_method: AdjustmentMethod,
    correlation_threshold: u64,
    keep_top_n: Option<usize>,
    is_all_vs_all: bool,
    rows_1: Seq<TupleExpressionValues>,
    rows_2: Seq<TupleExpressionValues>,
    correlate: F,
    scale: G,
    result: Seq<CorResultV>,
    count_before_truncation: usize,
    n_evaluated: usize,
    nan_filtered: usize,
) -> bool {
    exists|ev: Seq<CorResultV>, scaled: Seq<u64>| #[trigger] pipeline_trace(
        adjustment_method,
        correlation_threshold,
        keep_top_n,
        is_all_vs_all,
        rows_1,
        rows_2,
        correlate,
        scale,
        ev,
        scaled,
        result,
        count_before_truncation,
        n_evaluated,
        nan_filtered,
    )
}

/// Assembles the pipeline trace from the facts the stages establish: the
/// evaluated stream, its filtered survivors, the ranked order, the
/// adjusted records carrying the clamped scale outputs, the thresholded
/// records and the returned sequence.
#[verifier::spinoff_prover]
proof fn lemma_build_trace<
    F: Fn(&Vec<u64>, &Vec<u64>) -> (u64, u64),
    G: Fn(u64, usize, usize) -> u64,
>(
    adjustment_method: AdjustmentMethod,
    correlation_threshold: u64,
    keep_top_n: Option<usize>,
    is_all_vs_all: bool,
    rows_1: Seq<TupleExpressionValues>,
    rows_2: Seq<TupleExpressionValues>,
    correlate: F,
    scale: G,
    ev: Seq<CorResultV>,
    scaled: Seq<u64>,
    fv: Seq<CorResultV>,
    sv: Seq<CorResultV>,
    av: Seq<CorResultV>,
    kv: Seq<CorResultV>,
    rv: Seq<CorResultV>,
    count_before_truncation: usize,
    n_evaluated: usize,
    nan_filtered: usize,
)
    requires
        ev.len() == rows_1.len() * rows_2.len(),
        forall|k: int|
            #![trigger ev[k]]
            0 <= k < ev.len() ==> pair_record_ok(ev[k], rows_1, rows_2, k, is_all_vs_all),
        forall|k: int|
            #![trigger ev[k]]
            0 <= k < ev.len() ==> pair_from_kernel(ev[k], rows_1, rows_2, k, correlate),
        fv == filter_survivors(ev, is_all_vs_all),
        nan_filtered == nan_p_count(ev),
        n_evaluated == fv.len(),
        sv == (if adjustment_method is Bonferroni {
            fv
        } else {
            sort_spec(fv, SortKey::PValueDescending)
        }),
        av.len() == sv.len(),
        forall|k: int| #![trigger av[k]] 0 <= k < av.len() ==> same_core(av[k], sv[k]),
        scaled_trace(scaled, sv, av, scale, adjustment_method, n_evaluated),
        kv == filter_threshold(av, correlation_threshold),
        count_before_truncation == kv.len(),
        rv == (match keep_top_n {
            Some(top_n) => sort_spec(kv, SortKey::AbsCorrelationDescending).subrange(
                0,
                if top_n < kv.len() {
                    top_n as int
                } else {
                    kv.len() as int
                },
            ),
            None => kv,
        }),
    ensures
        pipeline_trace(
            adjustment_method,
            correlation_threshold,
            keep_top_n,
            is_all_vs_all,
            rows_1,
            rows_2,
            correlate,
            scale,
            ev,
            scaled,
            rv,
            count_before_truncation,
            n_evaluated,
            nan_filtered,
        ),
{
    let tracks = !(adjustment_method is Bonferroni);
    let qs = adjust_seq(scaled, tracks);
    assert forall|k: int| 0 <= k < av.len() implies #[trigger] adjusted_records(sv, qs)[k]
        == av[k] by {
        assert(same_core(av[k], sv[k]));
        assert(av[k].adjusted_p_value == Some(qs[k]));
    }
    assert(adjusted_records(sv, qs) =~= av);
}

/// A correlation analysis: the datasets, the correlation and adjustment
/// methods, the statistic threshold (a binary64 bit pattern), the sort
/// engine's in-memory budget, the pairing mode, the buffering choice for
/// the second dataset, and the optional result cap.
#[derive(Clone, Debug)]
pub struct Analysis {
    /// mRNA file path.
    pub gene_file_path: String,
    /// Gene Expression Modulator (GEM) file path.
    pub gem_file_path: String,
    /// Whether the second column of the GEM dataset holds CpG Site IDs.
    pub gem_contains_cpg: bool,
    /// Correlation method (Pearson, Spearman or Kendall).
    pub correlation_method: crate::correlation::CorrelationMethod,
    /// Records whose statistic magnitude falls below this bound are
    /// discarded.
    pub correlation_threshold: u64,
    /// Records held in memory per sorted segment during external sorting.
    pub sort_buf_size: usize,
    /// P-value adjustment method.
    pub adjustment_method: AdjustmentMethod,
    /// Whether every row pair is evaluated, or only label matches.
    pub is_all_vs_all: bool,
    /// Whether to buffer the GEM dataset in memory; `None` decides by size.
    pub collect_gem_dataset: Option<bool>,
    /// How many results to keep, or `None` for all of them.
    pub keep_top_n: Option<usize>,
}

impl Analysis {
    /// Runs the pipeline over the two datasets' rows: evaluate every pair
    /// with the correlation kernel, drop placeholders and NaN results
    /// (counting the latter), rank by descending p-value, adjust each
    /// p-value with the caller's scaling under the selected method's
    /// clamp, keep the records at or above the statistic threshold, and —
    /// when a cap is set — re-sort by descending statistic magnitude and
    /// keep the first `keep_top_n`. Returns the records, the retained
    /// count before truncation, the count of evaluated combinations, and
    /// the count of NaN-filtered combinations.
    #[verifier::rlimit(100)]
    #[verifier::loop_isolation(false)]
    pub fn run_analysis<F: Fn(&Vec<u64>, &Vec<u64>) -> (u64, u64), G: Fn(u64, usize, usize) -> u64>(
        &self,
        dataset_1: Vec<TupleExpressionValues>,
        dataset_2: Vec<TupleExpressionValues>,
        correlate: &F,
        scale: &G,
    ) -> (res: (crate::types::VecOfResults, usize, usize, usize))
        requires
            self.sort_buf_size >= 1,
            dataset_1@.len() * dataset_2@.len() <= usize::MAX,
            forall|a: &Vec<u64>, b: &Vec<u64>| correlate.requires((a, b)),
            forall|p: u64, rank: usize, n: usize| scale.requires((p, rank, n)),
        ensures
            // The run is exactly one pass of the staged pipeline over some
            // outputs of the two kernels.
            pipeline_trace_exists(
                self.adjustment_method,
                self.correlation_threshold,
                self.keep_top_n,
                self.is_all_vs_all,
                dataset_1@,
                dataset_2@,
                *correlate,
                *scale,
                views(res.0@),
                res.1,
                res.2,
                res.3,
            ),
            ({
                let result = views(res.0@);
                let count_before_truncation = res.1;
                let n_evaluated = res.2;
                let nan_filtered = res.3;
                // Evaluated combinations: survivors plus NaN drops cover
                // exactly the computed pairs.
                &&& n_evaluated + nan_filtered == (if self.is_all_vs_all {
                    dataset_1@.len() * dataset_2@.len()
                } else {
                    matching_pairs(dataset_1@, dataset_2@)
                })
                &&& count_before_truncation <= n_evaluated
                // Result length: min(top N, retained count) under a cap,
                // the retained count without one.
                &&& (match self.keep_top_n {
                    Some(top_n) => result.len() == (if top_n < count_before_truncation {
                        top_n as int
                    } else {
                        count_before_truncation as int
                    }),
                    None => result.len() == count_before_truncation,
                })
                // Every returned record was computed from one dataset row
                // pair, has a numeric p-value, an adjusted p-value of at
                // most one, and a statistic magnitude at or above the
                // threshold.
                &&& forall|k: int|
                    #![trigger result[k]]
                    0 <= k < result.len() ==> stage_ok(
                        result[k],
                        dataset_1@,
                        dataset_2@,
                        self.is_all_vs_all,
                    ) && result[k].adjusted_p_value is Some && bits::le_bits(
                        opt_bits(result[k].adjusted_p_value),
                        bits::ONE_BITS,
                    ) && passes_threshold(result[k], self.correlation_threshold)
                // Under a cap the result is ordered by descending
                // statistic magnitude.
                &&& (self.keep_top_n is Some ==> forall|i: int, j: int|
                    #![trigger result[i], result[j]]
                    0 <= i < j < result.len() ==> bits::le_bits(
                        opt_bits(result[j].correlation) & bits::MAG_MASK,
                        opt_bits(result[i].correlation) & bits::MAG_MASK,
                    ))
                // Step-up monotonicity: for the step-up methods, a record
                // with a strictly smaller raw p-value never carries a
                // larger adjusted p-value.
                &&& (!(self.adjustment_method is Bonferroni) ==> forall|i: int, j: int|
                    #![trigger result[i], result[j]]
                    0 <= i < result.len() && 0 <= j < result.len() && bits::lt_bits(
                        opt_bits(result[i].p_value),
                        opt_bits(result[j].p_value),
                    ) ==> bits::le_bits(
                        opt_bits(result[i].adjusted_p_value),
                        opt_bits(result[j].adjusted_p_value),
                    ))
            }),
    {
        let ghost rows_1 = dataset_1@;
        let ghost rows_2 = dataset_2@;

        // Cartesian product, correlating each computed pair.
        let evaluated = evaluate_pairs(&dataset_1, &dataset_2, self.is_all_vs_all, correlate);
        let ghost ev = views(evaluated@);
        proof {
            assert forall|k: int|
                #![trigger ev[k]]
                0 <= k < ev.len() implies (ev[k].p_value is Some ==> (self.is_all_vs_all || ev[k].gene
                == ev[k].gem)) by {
                if rows_2.len() > 0 {
                    lemma_pair_index(k, rows_1.len() as int, rows_2.len() as int);
                }
            }
        }

        // Drop matching-only placeholders and NaN results.
        let (filtered, nan_count) = filter_and_count(evaluated, self.is_all_vs_all);
        let number_of_evaluated_combinations = filtered.len();
        let ghost fv = views(filtered@);
        proof {
            assert forall|k: int|
                #![trigger fv[k]]
                0 <= k < fv.len() implies stage_ok(fv[k], rows_1, rows_2, self.is_all_vs_all) by {
                assert(fv[k] == views(filtered@)[k]);
                assert(survives(views(filtered@)[k], self.is_all_vs_all));
                assert(exists|p: int| 0 <= p < ev.len() && views(filtered@)[k] == ev[p]);
                let p = choose|p: int| 0 <= p < ev.len() && fv[k] == ev[p];
                if rows_2.len() > 0 {
                    lemma_pair_index(p, rows_1.len() as int, rows_2.len() as int);
                    assert(pair_record_ok(ev[p], rows_1, rows_2, p, self.is_all_vs_all));
                    assert(rows_1[p / rows_2.len() as int].0@ == fv[k].gene);
                    assert(rows_2[p % rows_2.len() as int].0@ == fv[k].gem);
                    assert(labels_from(fv[k], rows_1, rows_2));
                    assert(fv[k].correlation is Some);
                    assert(fv[k].p_value is Some);
                    assert(!bits::is_nan_bits(opt_bits(fv[k].p_value)));
                    assert(self.is_all_vs_all || fv[k].gene == fv[k].gem);
                } else {
                    assert(ev.len() == 0) by (nonlinear_arith)
                        requires
                            ev.len() == rows_1.len() * rows_2.len(),
                            rows_2.len() == 0,
                    ;
                    assert(fv =~= Seq::<CorResultV>::empty());
                    assert(false);
                }
            }
        }

        // Rank by descending p-value; Bonferroni needs no order.
        let is_bonferroni = match &self.adjustment_method {
            AdjustmentMethod::Bonferroni => true,
            _ => false,
        };
        let sorted = if is_bonferroni {
            filtered
        } else {
            let sorter = ExternalSorter::new(self.sort_buf_size);
            sorter.sort(filtered, SortKey::PValueDescending)
        };
        let ghost sv = views(sorted@);
        proof {
            if !is_bonferroni {
                crate::external_sort::lemma_sort_spec_ensures(fv, SortKey::PValueDescending);
            }
            assert forall|k: int|
                #![trigger sv[k]]
                0 <= k < sv.len() implies stage_ok(sv[k], rows_1, rows_2, self.is_all_vs_all) by {
                if !is_bonferroni {
                    assert(fv.contains(sv[k]));
                    let p = choose|p: int| 0 <= p < fv.len() && #[trigger] fv[p] == sv[k];
                } else {
                    assert(sv[k] == fv[k]);
                }
            }
            assert(sv.len() == fv.len());
        }

        // Adjust in rank order.
        let adjusted = adjust_all(
            sorted,
            scale,
            &self.adjustment_method,
            number_of_evaluated_combinations,
        );
        let ghost av = views(adjusted@);
        proof {
            assert forall|k: int|
                #![trigger av[k]]
                0 <= k < av.len() implies stage_ok(av[k], rows_1, rows_2, self.is_all_vs_all)
                && av[k].adjusted_p_value is Some && bits::le_bits(
                opt_bits(av[k].adjusted_p_value),
                bits::ONE_BITS,
            ) by {
                assert(same_core(av[k], sv[k]));
            }
            // Step-up monotonicity against the raw p-value order.
            if !is_bonferroni {
                assert forall|i: int, j: int|
                    #![trigger av[i], av[j]]
                    0 <= i < av.len() && 0 <= j < av.len() && bits::lt_bits(
                    opt_bits(av[i].p_value),
                    opt_bits(av[j].p_value),
                ) implies bits::le_bits(
                    opt_bits(av[i].adjusted_p_value),
                    opt_bits(av[j].adjusted_p_value),
                ) by {
                    assert(same_core(av[i], sv[i]));
                    assert(same_core(av[j], sv[j]));
                    if i < j {
                        assert(rec_key(sv[i], SortKey::PValueDescending) <= rec_key(
                            sv[j],
                            SortKey::PValueDescending,
                        ));
                        assert(false);
                    }
                }
            }
        }

        // Keep the records at or above the statistic threshold.
        let kept = threshold_filter(adjusted, self.correlation_threshold);
        let total_combinations_count = kept.len();
        let ghost kv = views(kept@);
        proof {
            assert forall|k: int|
                #![trigger kv[k]]
                0 <= k < kv.len() implies stage_ok(kv[k], rows_1, rows_2, self.is_all_vs_all)
                && kv[k].adjusted_p_value is Some && bits::le_bits(
                opt_bits(kv[k].adjusted_p_value),
                bits::ONE_BITS,
            ) && passes_threshold(kv[k], self.correlation_threshold) by {
                let p = choose|p: int| 0 <= p < av.len() && kv[k] == av[p];
            }
        }

        // Truncate to the top N by statistic magnitude when a cap is set.
        let result = match &self.keep_top_n {
            Some(top_n) => {
                let sorter = ExternalSorter::new(self.sort_buf_size);
                let mut sorted_cor_desc = sorter.sort(kept, SortKey::AbsCorrelationDescending);
                proof {
                    crate::external_sort::lemma_sort_spec_ensures(
                        kv,
                        SortKey::AbsCorrelationDescending,
                    );
                }
                if *top_n < sorted_cor_desc.len() {
                    sorted_cor_desc.truncate(*top_n);
                }
                proof {
                    let full = sort_spec(kv, SortKey::AbsCorrelationDescending);
                    assert(views(sorted_cor_desc@) =~= full.subrange(
                        0,
                        sorted_cor_desc@.len() as int,
                    ));
                    assert forall|k: int|
                        #![trigger views(sorted_cor_desc@)[k]]
                        0 <= k < sorted_cor_desc@.len() implies kv.contains(
                        views(sorted_cor_desc@)[k],
                    ) by {
                        assert(views(sorted_cor_desc@)[k] == full[k]);
                    }
                }
                sorted_cor_desc
            }
            None => kept,
        };
        proof {
            let rv = views(result@);
            assert forall|k: int|
                #![trigger rv[k]]
                0 <= k < rv.len() implies stage_ok(rv[k], rows_1, rows_2, self.is_all_vs_all)
                && rv[k].adjusted_p_value is Some && bits::le_bits(
                opt_bits(rv[k].adjusted_p_value),
                bits::ONE_BITS,
            ) && passes_threshold(rv[k], self.correlation_threshold) by {
                if self.keep_top_n is Some {
                    assert(kv.contains(rv[k]));
                    let p = choose|p: int| 0 <= p < kv.len() && #[trigger] kv[p] == rv[k];
                } else {
                    assert(rv[k] == kv[k]);
                }
            }
            assert forall|k: int|
                #![trigger rv[k]]
                0 <= k < rv.len() implies rv_in_adjusted(rv[k], av) by {
                if self.keep_top_n is Some {
                    assert(kv.contains(rv[k]));
                    let p0 = choose|p0: int| 0 <= p0 < kv.len() && #[trigger] kv[p0] == rv[k];
                    let p1 = choose|p1: int| 0 <= p1 < av.len() && kv[p0] == av[p1];
                    assert(av[p1] == rv[k]);
                } else {
                    assert(rv[k] == kv[k]);
                    let p1 = choose|p1: int| 0 <= p1 < av.len() && kv[k as int] == av[p1];
                    assert(av[p1] == rv[k]);
                }
            }
            if !is_bonferroni {
                assert forall|i: int, j: int|
                    #![trigger rv[i], rv[j]]
                    0 <= i < rv.len() && 0 <= j < rv.len() && bits::lt_bits(
                    opt_bits(rv[i].p_value),
                    opt_bits(rv[j].p_value),
                ) implies bits::le_bits(
                    opt_bits(rv[i].adjusted_p_value),
                    opt_bits(rv[j].adjusted_p_value),
                ) by {
                    assert(rv_in_adjusted(rv[i], av));
                    assert(rv_in_adjusted(rv[j], av));
                    let pi = choose|p: int| 0 <= p < av.len() && av[p] == rv[i];
                    let pj = choose|p: int| 0 <= p < av.len() && av[p] == rv[j];
                    assert(bits::lt_bits(opt_bits(av[pi].p_value), opt_bits(av[pj].p_value)));
                }
            }
            if self.keep_top_n is Some {
                let full = sort_spec(kv, SortKey::AbsCorrelationDescending);
                assert forall|i: int, j: int|
                    #![trigger rv[i], rv[j]]
                    0 <= i < j < rv.len() implies bits::le_bits(
                    opt_bits(rv[j].correlation) & bits::MAG_MASK,
                    opt_bits(rv[i].correlation) & bits::MAG_MASK,
                ) by {
                    assert(rv[i] == full[i] && rv[j] == full[j]);
                    assert(rec_key(full[i], SortKey::AbsCorrelationDescending) <= rec_key(
                        full[j],
                        SortKey::AbsCorrelationDescending,
                    ));
                }
            }
            // The full pipeline trace, witnessed by the evaluated stream
            // and the scale kernel's recorded outputs.
            let scaled = choose|s: Seq<u64>| scaled_trace(
                s,
                sv,
                av,
                *scale,
                self.adjustment_method,
                number_of_evaluated_combinations,
            );
            assert(is_bonferroni == (self.adjustment_method is Bonferroni));
            if self.keep_top_n is Some {
                let t = self.keep_top_n->0;
                assert(rv =~= sort_spec(kv, SortKey::AbsCorrelationDescending).subrange(
                    0,
                    if t < kv.len() {
                        t as int
                    } else {
                        kv.len() as int
                    },
                ));
            } else {
                assert(rv =~= kv);
            }
            lemma_build_trace(
                self.adjustment_method,
                self.correlation_threshold,
                self.keep_top_n,
                self.is_all_vs_all,
                rows_1,
                rows_2,
                *correlate,
                *scale,
                ev,
                scaled,
                fv,
                sv,
                av,
                kv,
                rv,
                total_combinations_count,
                number_of_evaluated_combinations,
                nan_count,
            );
            assert(pipeline_trace(
                self.adjustment_method,
                self.correlation_threshold,
                self.keep_top_n,
                self.is_all_vs_all,
                dataset_1@,
                dataset_2@,
                *correlate,
                *scale,
                ev,
                scaled,
                views(result@),
                total_combinations_count,
                number_of_evaluated_combinations,
                nan_count,
            ));
            assert(pipeline_trace_exists(
                self.adjustment_method,
                self.correlation_threshold,
                self.keep_top_n,
                self.is_all_vs_all,
                dataset_1@,
                dataset_2@,
                *correlate,
                *scale,
                views(result@),
                total_combinations_count,
                number_of_evaluated_combinations,
                nan_count,
            ));
        }
        (
            result,
            total_combinations_count,
            number_of_evaluated_combinations,
            nan_count,
        )
    }
}

/// The record appears somewhere in the adjusted stream.
pub open spec fn rv_in_adjusted(rv: CorResultV, av: Seq<CorResultV>) -> bool {
    exists|p: int| 0 <= p < av.len() && av[p] == rv
}

} // verus!
