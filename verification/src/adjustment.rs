//! Multiple-testing adjustment of p-values.
//!
//! `adjust` is called once per surviving record, in strictly increasing rank
//! order, where rank is the 0-based position in a p-value-descending global
//! order and N is the count of surviving records. The caller supplies
//! `scaled_p_value`, the raw p-value with the method's multiplier already
//! applied (raw·N for Bonferroni, raw·N/(N−rank) for Benjamini-Hochberg, the
//! same further scaled by the harmonic constant c(N) for Benjamini-Yekutieli);
//! the structs here clamp it against one and — for the step-up methods —
//! against the running minimum of the values already produced, which is what
//! enforces step-up monotonicity.

use crate::bits;
use vstd::prelude::*;

verus! {

/// One clamping step: the smaller of `scaled` and the running extremum
/// `prev`, capped at one.
pub open spec fn clamp_step(scaled: u64, prev: u64) -> u64 {
    bits::min_bits(bits::min_bits(scaled, prev), bits::ONE_BITS)
}

/// A p-value adjustment strategy with its per-run running state.
pub trait Adjustment: Sized {
    /// Whether the running extremum follows each produced value (the step-up
    /// methods) or stays put (Bonferroni).
    spec fn tracks_running_min(&self) -> bool;

    /// The running extremum that the next call will clamp against.
    spec fn prev(&self) -> u64;

    /// Adjusts one scaled p-value, in rank order.
    fn adjust(&mut self, scaled_p_value: u64, rank: usize) -> (q: u64)
        ensures
            q == clamp_step(scaled_p_value, old(self).prev()),
            final(self).prev() == if old(self).tracks_running_min() {
                q
            } else {
                old(self).prev()
            },
            final(self).tracks_running_min() == old(self).tracks_running_min(),
    ;
}

/// Bonferroni correction: stateless and rank-independent; the caller scales
/// the raw p-value by N and the step caps it at one.
pub struct Bonferroni {
    /// The count N of surviving records.
    pub total_number_of_elements: usize,
}

impl Bonferroni {
    /// Builds the strategy for a run with N surviving records.
    pub fn new(total_number_of_elements: usize) -> (r: Bonferroni)
        ensures
            r.total_number_of_elements == total_number_of_elements,
            r.prev() == bits::MAX_BITS,
            !r.tracks_running_min(),
    {
        Bonferroni { total_number_of_elements }
    }
}

impl Adjustment for Bonferroni {
    open spec fn tracks_running_min(&self) -> bool {
        false
    }

    open spec fn prev(&self) -> u64 {
        bits::MAX_BITS
    }

    fn adjust(&mut self, scaled_p_value: u64, rank: usize) -> (q: u64) {
        bits::min_bits_exec(bits::min_bits_exec(scaled_p_value, bits::MAX_BITS), bits::ONE_BITS)
    }
}

/// Benjamini-Hochberg step-up correction: clamps each scaled p-value against
/// the running minimum of the values produced so far in the descending
/// traversal.
pub struct BenjaminiHochberg {
    /// The count N of surviving records.
    pub total_number_of_elements: usize,
    /// The smallest adjusted p-value produced so far.
    pub previous_max_p_value: u64,
}

impl BenjaminiHochberg {
    /// Builds the strategy for a run with N surviving records.
    pub fn new(total_number_of_elements: usize) -> (r: BenjaminiHochberg)
        ensures
            r.total_number_of_elements == total_number_of_elements,
            r.prev() == bits::MAX_BITS,
            r.tracks_running_min(),
    {
        BenjaminiHochberg {
            total_number_of_elements,
            previous_max_p_value: bits::MAX_BITS,
        }
    }
}

impl Adjustment for BenjaminiHochberg {
    open spec fn tracks_running_min(&self) -> bool {
        true
    }

    open spec fn prev(&self) -> u64 {
        self.previous_max_p_value
    }

    fn adjust(&mut self, scaled_p_value: u64, rank: usize) -> (q: u64) {
        let q = bits::min_bits_exec(
            bits::min_bits_exec(scaled_p_value, self.previous_max_p_value),
            bits::ONE_BITS,
        );
        self.previous_max_p_value = q;
        q
    }
}

/// Benjamini-Yekutieli step-up correction: the same recurrence as
/// Benjamini-Hochberg; the harmonic constant c(N) is part of the caller's
/// scaling.
pub struct BenjaminiYekutieli {
    /// The count N of surviving records.
    pub total_number_of_elements: usize,
    /// The smallest adjusted p-value produced so far.
    pub previous_max_p_value: u64,
}

impl BenjaminiYekutieli {
    /// Builds the strategy for a run with N surviving records.
    pub fn new(total_number_of_elements: usize) -> (r: BenjaminiYekutieli)
        ensures
            r.total_number_of_elements == total_number_of_elements,
            r.prev() == bits::MAX_BITS,
            r.tracks_running_min(),
    {
        BenjaminiYekutieli {
            total_number_of_elements,
            previous_max_p_value: bits::MAX_BITS,
        }
    }
}

impl Adjustment for BenjaminiYekutieli {
    open spec fn tracks_running_min(&self) -> bool {
        true
    }

    open spec fn prev(&self) -> u64 {
        self.previous_max_p_value
    }

    fn adjust(&mut self, scaled_p_value: u64, rank: usize) -> (q: u64) {
        let q = bits::min_bits_exec(
            bits::min_bits_exec(scaled_p_value, self.previous_max_p_value),
            bits::ONE_BITS,
        );
        self.previous_max_p_value = q;
        q
    }
}

/// The closed set of adjustment methods.
#[derive(Clone, Copy, Debug, PartialEq, Eq, Structural)]
pub enum AdjustmentMethod {
    BenjaminiHochberg,
    BenjaminiYekutieli,
    Bonferroni,
}

impl AdjustmentMethod {
    /// The method's display name.
    pub fn description(&self) -> (r: String)
        ensures
            self is BenjaminiHochberg ==> r@ == "Benjamini-Hochberg"@,
            self is BenjaminiYekutieli ==> r@ == "Benjamini-Yekutieli"@,
            self is Bonferroni ==> r@ == "Bonferroni"@,
    {
        match self {
            AdjustmentMethod::BenjaminiHochberg => "Benjamini-Hochberg".to_owned(),
            AdjustmentMethod::BenjaminiYekutieli => "Benjamini-Yekutieli".to_owned(),
            AdjustmentMethod::Bonferroni => "Bonferroni".to_owned(),
        }
    }
}

/// The selected strategy with its running state: a closed tagged union over
/// the three methods.
pub enum RunningAdjustment {
    Bonferroni(Bonferroni),
    BenjaminiHochberg(BenjaminiHochberg),
    BenjaminiYekutieli(BenjaminiYekutieli),
}

impl RunningAdjustment {
    /// Whether the running extremum follows each produced value.
    pub open spec fn tracks_running_min(&self) -> bool {
        match self {
            RunningAdjustment::Bonferroni(a) => a.tracks_running_min(),
            RunningAdjustment::BenjaminiHochberg(a) => a.tracks_running_min(),
            RunningAdjustment::BenjaminiYekutieli(a) => a.tracks_running_min(),
        }
    }

    /// The running extremum that the next call will clamp against.
    pub open spec fn prev(&self) -> u64 {
        match self {
            RunningAdjustment::Bonferroni(a) => a.prev(),
            RunningAdjustment::BenjaminiHochberg(a) => a.prev(),
            RunningAdjustment::BenjaminiYekutieli(a) => a.prev(),
        }
    }

    /// Adjusts one scaled p-value, in rank order.
    pub fn adjust(&mut self, scaled_p_value: u64, rank: usize) -> (q: u64)
        ensures
            q == clamp_step(scaled_p_value, old(self).prev()),
            final(self).prev() == if old(self).tracks_running_min() {
                q
            } else {
                old(self).prev()
            },
            final(self).tracks_running_min() == old(self).tracks_running_min(),
    {
        match self {
            RunningAdjustment::Bonferroni(a) => a.adjust(scaled_p_value, rank),
            RunningAdjustment::BenjaminiHochberg(a) => a.adjust(scaled_p_value, rank),
            RunningAdjustment::BenjaminiYekutieli(a) => a.adjust(scaled_p_value, rank),
        }
    }
}

/// Selects and initializes the adjustment strategy for a run with N
/// surviving records.
pub fn get_adjustment_method(
    adjustment_method: &AdjustmentMethod,
    total_number_of_elements: usize,
) -> (r: RunningAdjustment)
    ensures
        r.prev() == bits::MAX_BITS,
        r.tracks_running_min() == !(adjustment_method is Bonferroni),
        r is Bonferroni <==> adjustment_method is Bonferroni,
        r is BenjaminiHochberg <==> adjustment_method is BenjaminiHochberg,
        r is BenjaminiYekutieli <==> adjustment_method is BenjaminiYekutieli,
{
    match adjustment_method {
        AdjustmentMethod::Bonferroni => {
            RunningAdjustment::Bonferroni(Bonferroni::new(total_number_of_elements))
        }
        AdjustmentMethod::BenjaminiHochberg => {
            RunningAdjustment::BenjaminiHochberg(BenjaminiHochberg::new(total_number_of_elements))
        }
        AdjustmentMethod::BenjaminiYekutieli => {
            RunningAdjustment::BenjaminiYekutieli(BenjaminiYekutieli::new(total_number_of_elements))
        }
    }
}

/// The successive outputs of a step-up adjustment run: each element clamps
/// its scaled p-value against one and against the previous output, starting
/// from `prev0`.
pub open spec fn adjusted_fold(scaled: Seq<u64>, prev0: u64) -> Seq<u64>
    decreases scaled.len(),
{
    if scaled.len() == 0 {
        Seq::empty()
    } else {
        let q = clamp_step(scaled[0], prev0);
        seq![q] + adjusted_fold(scaled.drop_first(), q)
    }
}

/// Every output of a step-up run is at most the starting extremum and at
/// most one.
pub proof fn lemma_adjusted_fold_bounded(scaled: Seq<u64>, prev0: u64)
    ensures
        adjusted_fold(scaled, prev0).len() == scaled.len(),
        forall|k: int|
            0 <= k < scaled.len() ==> bits::le_bits(
                #[trigger] adjusted_fold(scaled, prev0)[k],
                prev0,
            ) && bits::le_bits(adjusted_fold(scaled, prev0)[k], bits::ONE_BITS),
    decreases scaled.len(),
{
    if scaled.len() > 0 {
        let q = clamp_step(scaled[0], prev0);
        lemma_adjusted_fold_bounded(scaled.drop_first(), q);
    }
}

/// Step-up monotonicity: along the p-value-descending traversal the adjusted
/// values never increase, so read back in ascending raw-p-value order they
/// are non-decreasing. This is the defining correctness property of the
/// Benjamini-Hochberg and Benjamini-Yekutieli step-up procedures.
pub proof fn lemma_adjusted_fold_monotone(scaled: Seq<u64>, prev0: u64)
    ensures
        forall|i: int, j: int|
            0 <= i <= j < scaled.len() ==> bits::le_bits(
                #[trigger] adjusted_fold(scaled, prev0)[j],
                #[trigger] adjusted_fold(scaled, prev0)[i],
            ),
    decreases scaled.len(),
{
    if scaled.len() > 0 {
        let q = clamp_step(scaled[0], prev0);
        let tail = adjusted_fold(scaled.drop_first(), q);
        lemma_adjusted_fold_bounded(scaled.drop_first(), q);
        lemma_adjusted_fold_monotone(scaled.drop_first(), q);
        assert forall|i: int, j: int| 0 <= i <= j < scaled.len() implies bits::le_bits(
            adjusted_fold(scaled, prev0)[j],
            adjusted_fold(scaled, prev0)[i],
        ) by {
            if i == 0 {
                if j > 0 {
                    assert(adjusted_fold(scaled, prev0)[j] == tail[j - 1]);
                    assert(bits::le_bits(tail[j - 1], q));
                }
            } else {
                assert(adjusted_fold(scaled, prev0)[i] == tail[i - 1]);
                assert(adjusted_fold(scaled, prev0)[j] == tail[j - 1]);
            }
        }
    }
}

/// The adjusted values of a whole run over the scaled p-values: the
/// step-up methods thread the running minimum through the fold, Bonferroni
/// clamps each value independently.
pub open spec fn adjust_seq(scaled: Seq<u64>, tracks_running_min: bool) -> Seq<u64> {
    if tracks_running_min {
        adjusted_fold(scaled, bits::MAX_BITS)
    } else {
        Seq::new(scaled.len(), |k: int| clamp_step(scaled[k], bits::MAX_BITS))
    }
}

/// Extending a step-up run by one scaled value appends one clamp against
/// the run's last output (or the starting extremum when it is the first).
pub proof fn lemma_adjusted_fold_push(scaled: Seq<u64>, x: u64, prev0: u64)
    ensures
        adjusted_fold(scaled.push(x), prev0) =~= adjusted_fold(scaled, prev0).push(
            clamp_step(
                x,
                if scaled.len() == 0 {
                    prev0
                } else {
                    adjusted_fold(scaled, prev0).last()
                },
            ),
        ),
    decreases scaled.len(),
{
    lemma_adjusted_fold_bounded(scaled, prev0);
    if scaled.len() == 0 {
        assert(scaled.push(x)[0] == x);
        assert(scaled.push(x).drop_first() =~= Seq::<u64>::empty());
        assert(adjusted_fold(Seq::<u64>::empty(), clamp_step(x, prev0)) =~= Seq::<u64>::empty());
        assert(adjusted_fold(scaled.push(x), prev0) =~= seq![clamp_step(x, prev0)]
            + Seq::<u64>::empty());
        assert(seq![clamp_step(x, prev0)] + Seq::<u64>::empty() =~= seq![clamp_step(x, prev0)]);
        assert(adjusted_fold(scaled, prev0) =~= Seq::<u64>::empty());
        assert(adjusted_fold(scaled, prev0).push(clamp_step(x, prev0)) =~= seq![
            clamp_step(x, prev0),
        ]);
        assert(adjusted_fold(scaled.push(x), prev0) =~= seq![clamp_step(x, prev0)]);
    } else {
        let q = clamp_step(scaled[0], prev0);
        assert(scaled.push(x)[0] == scaled[0]);
        assert(scaled.push(x).drop_first() =~= scaled.drop_first().push(x));
        lemma_adjusted_fold_push(scaled.drop_first(), x, q);
        lemma_adjusted_fold_bounded(scaled.drop_first(), q);
        if scaled.len() == 1 {
            assert(scaled.drop_first() =~= Seq::<u64>::empty());
            assert(adjusted_fold(scaled, prev0) =~= seq![q]);
        } else {
            assert(adjusted_fold(scaled, prev0).last() == adjusted_fold(
                scaled.drop_first(),
                q,
            ).last());
        }
    }
}

/// Bonferroni bound: the adjusted value min(raw·N, 1) lies between the raw
/// p-value and one, whenever scaling by N did not decrease the raw p-value
/// (N ≥ 1) and the raw p-value is itself at most one.
pub proof fn lemma_bonferroni_bound(raw: u64, scaled: u64)
    requires
        bits::le_bits(raw, scaled),
        bits::le_bits(raw, bits::ONE_BITS),
    ensures
        bits::le_bits(raw, clamp_step(scaled, bits::MAX_BITS)),
        bits::le_bits(clamp_step(scaled, bits::MAX_BITS), bits::ONE_BITS),
{
}

} // verus!
