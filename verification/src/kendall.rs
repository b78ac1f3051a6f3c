//! The combinatorial core of the tie-corrected Kendall rank correlation
//! (tau-b): pairing the two sample vectors, sorting the pairs, walking runs
//! of tied values into the combinatorial accumulators that the variance of
//! the test statistic needs, and counting discordances with an O(n log n)
//! merge sort whose swap count is proved equal to the number of pairs read
//! out of order — the tie-aware counting-inversions algorithm. The caller
//! combines these integer counts into tau-b and its significance.
//!
//! Values are binary64 bit patterns; two values tie when their order keys
//! are equal.

use crate::bits::{self, fkey};
use crate::sorting::{self, isort_by, strictly_sorted_by};
use vstd::prelude::*;

verus! {

broadcast use vstd::seq_lib::group_to_multiset_ensures;

/// A sample pair tagged with its position: the x value, the y value, the
/// tag.
pub type TaggedPair = (u64, u64, int);

/// The executable form of a tagged pair.
pub type TaggedPairX = (u64, u64, usize);

/// The image of a tagged pair vector.
pub open spec fn pviews(s: Seq<TaggedPairX>) -> Seq<TaggedPair> {
    s.map_values(|p: TaggedPairX| (p.0, p.1, p.2 as int))
}

/// The paired sample vectors.
pub open spec fn zip_pairs(x: Seq<u64>, y: Seq<u64>) -> Seq<(u64, u64)> {
    Seq::new(x.len(), |i: int| (x[i], y[i]))
}

/// Pairs tagged with their positions.
pub open spec fn ptag(s: Seq<(u64, u64)>) -> Seq<TaggedPair> {
    Seq::new(s.len(), |i: int| (s[i].0, s[i].1, i))
}

/// The first sort's order: by x, ties by y, then by tag — strict and total.
pub open spec fn plt(a: TaggedPair, b: TaggedPair) -> bool {
    fkey(a.0) < fkey(b.0) || (fkey(a.0) == fkey(b.0) && fkey(a.1) < fkey(b.1)) || (fkey(a.0)
        == fkey(b.0) && fkey(a.1) == fkey(b.1) && a.2 < b.2)
}

/// The second sort's order: by y alone, ties by tag — strict and total.
pub open spec fn ylt(a: TaggedPair, b: TaggedPair) -> bool {
    fkey(a.1) < fkey(b.1) || (fkey(a.1) == fkey(b.1) && a.2 < b.2)
}

/// The first order as a relation value.
pub open spec fn plt_fn() -> spec_fn(TaggedPair, TaggedPair) -> bool {
    |a: TaggedPair, b: TaggedPair| plt(a, b)
}

/// The second order as a relation value.
pub open spec fn ylt_fn() -> spec_fn(TaggedPair, TaggedPair) -> bool {
    |a: TaggedPair, b: TaggedPair| ylt(a, b)
}

/// The pairs tie in x.
pub open spec fn eqx(a: TaggedPair, b: TaggedPair) -> bool {
    fkey(a.0) == fkey(b.0)
}

/// The pairs tie in y.
pub open spec fn eqy(a: TaggedPair, b: TaggedPair) -> bool {
    fkey(a.1) == fkey(b.1)
}

/// The pairs tie in both coordinates.
pub open spec fn eqxy(a: TaggedPair, b: TaggedPair) -> bool {
    fkey(a.0) == fkey(b.0) && fkey(a.1) == fkey(b.1)
}

/// The first pair's y strictly exceeds the second's.
pub open spec fn ygt(a: TaggedPair, b: TaggedPair) -> bool {
    fkey(a.1) > fkey(b.1)
}

/// How many entries of `s` have y strictly above that of `e`.
pub open spec fn cgt(s: Seq<TaggedPair>, e: TaggedPair) -> nat
    decreases s.len(),
{
    if s.len() == 0 {
        0
    } else {
        cgt(s.drop_last(), e) + if ygt(s.last(), e) {
            1nat
        } else {
            0nat
        }
    }
}

/// How many ordered pairs of positions in `s` read their y values out of
/// order: the inversions by y.
pub open spec fn inv_y(s: Seq<TaggedPair>) -> nat
    decreases s.len(),
{
    if s.len() == 0 {
        0
    } else {
        inv_y(s.drop_last()) + cgt(s.drop_last(), s.last())
    }
}

/// How many pairs drawn one from `a` and one from `b` read out of order by
/// y.
pub open spec fn cross_y(a: Seq<TaggedPair>, b: Seq<TaggedPair>) -> nat
    decreases b.len(),
{
    if b.len() == 0 {
        0
    } else {
        cross_y(a, b.drop_last()) + cgt(a, b.last())
    }
}

/// `cgt` never exceeds the sequence length.
pub proof fn lemma_cgt_le_len(s: Seq<TaggedPair>, e: TaggedPair)
    ensures
        cgt(s, e) <= s.len(),
    decreases s.len(),
{
    if s.len() > 0 {
        lemma_cgt_le_len(s.drop_last(), e);
    }
}

/// `cgt` adds up over concatenation.
pub proof fn lemma_cgt_concat(a: Seq<TaggedPair>, b: Seq<TaggedPair>, e: TaggedPair)
    ensures
        cgt(a + b, e) == cgt(a, e) + cgt(b, e),
    decreases b.len(),
{
    if b.len() == 0 {
        assert(a + b =~= a);
    } else {
        assert((a + b).drop_last() =~= a + b.drop_last());
        assert((a + b).last() == b.last());
        lemma_cgt_concat(a, b.drop_last(), e);
    }
}

/// Removing one entry lowers `cgt` by that entry's own contribution.
pub proof fn lemma_cgt_remove(s: Seq<TaggedPair>, i: int, e: TaggedPair)
    requires
        0 <= i < s.len(),
    ensures
        cgt(s, e) == cgt(s.remove(i), e) + if ygt(s[i], e) {
            1nat
        } else {
            0nat
        },
{
    let left = s.subrange(0, i);
    let mid = seq![s[i]];
    let right = s.subrange(i + 1, s.len() as int);
    assert(s =~= left + mid + right);
    assert(s.remove(i) =~= left + right);
    lemma_cgt_concat(left + mid, right, e);
    lemma_cgt_concat(left, mid, e);
    lemma_cgt_concat(left, right, e);
    assert(mid.len() == 1 && mid.last() == s[i]);
    assert(mid.drop_last() =~= Seq::<TaggedPair>::empty());
    assert(cgt(mid.drop_last(), e) == 0);
    assert(cgt(mid, e) == if ygt(s[i], e) {
        1nat
    } else {
        0nat
    });
}

/// `cgt` reads only the contents: sequences with equal multisets agree.
pub proof fn lemma_cgt_multiset(s1: Seq<TaggedPair>, s2: Seq<TaggedPair>, e: TaggedPair)
    requires
        s1.to_multiset() == s2.to_multiset(),
    ensures
        cgt(s1, e) == cgt(s2, e),
    decreases s1.len(),
{
    broadcast use vstd::multiset::group_multiset_axioms;

    if s1.len() == 0 {
        assert(s2.to_multiset().len() == 0);
    } else {
        let x = s1.last();
        assert(s1.to_multiset().contains(x)) by {
            assert(s1.contains(x));
        }
        assert(s2.to_multiset().contains(x));
        assert(s2.contains(x));
        let i = choose|i: int| 0 <= i < s2.len() && s2[i] == x;
        assert(s1.drop_last() =~= s1.remove(s1.len() - 1));
        assert(s1.remove(s1.len() - 1).to_multiset() =~= s1.to_multiset().remove(x));
        assert(s2.remove(i).to_multiset() =~= s2.to_multiset().remove(x));
        lemma_cgt_multiset(s1.drop_last(), s2.remove(i), e);
        lemma_cgt_remove(s2, i, e);
    }
}

/// Inversions split over concatenation into each side's own inversions plus
/// the out-of-order pairs across the cut.
pub proof fn lemma_inv_split(a: Seq<TaggedPair>, b: Seq<TaggedPair>)
    ensures
        inv_y(a + b) == inv_y(a) + inv_y(b) + cross_y(a, b),
    decreases b.len(),
{
    if b.len() == 0 {
        assert(a + b =~= a);
    } else {
        assert((a + b).drop_last() =~= a + b.drop_last());
        assert((a + b).last() == b.last());
        lemma_inv_split(a, b.drop_last());
        lemma_cgt_concat(a, b.drop_last(), b.last());
    }
}

/// `cross_y` reads only the contents of either side.
pub proof fn lemma_cross_multiset(
    a1: Seq<TaggedPair>,
    a2: Seq<TaggedPair>,
    b1: Seq<TaggedPair>,
    b2: Seq<TaggedPair>,
)
    requires
        a1.to_multiset() == a2.to_multiset(),
        b1.to_multiset() == b2.to_multiset(),
    ensures
        cross_y(a1, b1) == cross_y(a2, b2),
    decreases b1.len(),
{
    broadcast use vstd::multiset::group_multiset_axioms;

    if b1.len() == 0 {
        assert(b2.to_multiset().len() == 0);
    } else {
        let x = b1.last();
        assert(b1.to_multiset().contains(x)) by {
            assert(b1.contains(x));
        }
        assert(b2.to_multiset().contains(x));
        assert(b2.contains(x));
        let i = choose|i: int| 0 <= i < b2.len() && b2[i] == x;
        assert(b1.drop_last() =~= b1.remove(b1.len() - 1));
        assert(b1.remove(b1.len() - 1).to_multiset() =~= b1.to_multiset().remove(x));
        assert(b2.remove(i).to_multiset() =~= b2.to_multiset().remove(x));
        lemma_cross_multiset(a1, a2, b1.drop_last(), b2.remove(i));
        lemma_cgt_multiset(a1, a2, x);
        lemma_cross_remove(a2, b2, i);
    }
}

/// Dropping one entry of the right side lowers `cross_y` by that entry's
/// own count.
pub proof fn lemma_cross_remove(a: Seq<TaggedPair>, b: Seq<TaggedPair>, i: int)
    requires
        0 <= i < b.len(),
    ensures
        cross_y(a, b) == cross_y(a, b.remove(i)) + cgt(a, b[i]),
{
    let left = b.subrange(0, i);
    let mid = seq![b[i]];
    let right = b.subrange(i + 1, b.len() as int);
    assert(b =~= left + mid + right);
    assert(b.remove(i) =~= left + right);
    lemma_cross_concat(a, left + mid, right);
    lemma_cross_concat(a, left, mid);
    lemma_cross_concat(a, left, right);
    assert(mid.len() == 1 && mid.last() == b[i]);
    assert(mid.drop_last() =~= Seq::<TaggedPair>::empty());
    assert(cross_y(a, mid.drop_last()) == 0);
    assert(cross_y(a, mid) == cgt(a, b[i]));
}

/// `cross_y` adds up over concatenation of the right side.
pub proof fn lemma_cross_concat(a: Seq<TaggedPair>, b: Seq<TaggedPair>, c: Seq<TaggedPair>)
    ensures
        cross_y(a, b + c) == cross_y(a, b) + cross_y(a, c),
    decreases c.len(),
{
    if c.len() == 0 {
        assert(b + c =~= b);
    } else {
        assert((b + c).drop_last() =~= b + c.drop_last());
        assert((b + c).last() == c.last());
        lemma_cross_concat(a, b, c.drop_last());
    }
}

/// `cross_y` is bounded by the product of the lengths.
pub proof fn lemma_cross_le(a: Seq<TaggedPair>, b: Seq<TaggedPair>)
    ensures
        cross_y(a, b) <= a.len() * b.len(),
    decreases b.len(),
{
    if b.len() > 0 {
        lemma_cross_le(a, b.drop_last());
        lemma_cgt_le_len(a, b.last());
        assert(a.len() * b.len() == a.len() * (b.len() - 1) + a.len()) by (nonlinear_arith);
    }
}

/// Inversions are bounded by the square of the length.
pub proof fn lemma_inv_le(s: Seq<TaggedPair>)
    ensures
        inv_y(s) <= s.len() * s.len(),
    decreases s.len(),
{
    if s.len() > 0 {
        lemma_inv_le(s.drop_last());
        lemma_cgt_le_len(s.drop_last(), s.last());
        assert((s.len() - 1) * (s.len() - 1) + (s.len() - 1) <= s.len() * s.len())
            by (nonlinear_arith);
    }
}

/// The length of the run of consecutively tied entries starting at `i`.
pub open spec fn run_len(s: Seq<TaggedPair>, i: int, eqv: spec_fn(TaggedPair, TaggedPair) -> bool) -> nat
    decreases s.len() - i,
{
    if i < 0 || i >= s.len() {
        0
    } else if i + 1 < s.len() && eqv(s[i], s[i + 1]) {
        1 + run_len(s, i + 1, eqv)
    } else {
        1
    }
}

/// The sum of `f` over the lengths of the maximal runs of consecutively
/// tied entries from position `i` on.
pub open spec fn runs_sum(
    s: Seq<TaggedPair>,
    i: int,
    eqv: spec_fn(TaggedPair, TaggedPair) -> bool,
    f: spec_fn(int) -> int,
) -> int
    decreases s.len() - i
        via runs_sum_decreases
{
    if i < 0 || i >= s.len() {
        0
    } else {
        f(run_len(s, i, eqv) as int) + runs_sum(s, i + run_len(s, i, eqv), eqv, f)
    }
}

#[via_fn]
proof fn runs_sum_decreases(
    s: Seq<TaggedPair>,
    i: int,
    eqv: spec_fn(TaggedPair, TaggedPair) -> bool,
    f: spec_fn(int) -> int,
) {
    if 0 <= i < s.len() {
        lemma_run_len_bounds(s, i, eqv);
    }
}

/// A run starting inside the sequence has at least one entry and stays
/// inside it.
pub proof fn lemma_run_len_bounds(
    s: Seq<TaggedPair>,
    i: int,
    eqv: spec_fn(TaggedPair, TaggedPair) -> bool,
)
    requires
        0 <= i < s.len(),
    ensures
        1 <= run_len(s, i, eqv) <= s.len() - i,
    decreases s.len() - i,
{
    if i + 1 < s.len() && eqv(s[i], s[i + 1]) {
        lemma_run_len_bounds(s, i + 1, eqv);
    }
}

/// A stretch of consecutively tied entries closed off on both sides is one
/// maximal run, of exactly its length.
pub proof fn lemma_run_len_exact(
    s: Seq<TaggedPair>,
    r: int,
    i: int,
    eqv: spec_fn(TaggedPair, TaggedPair) -> bool,
)
    requires
        0 <= r < i <= s.len(),
        forall|m: int| r <= m < i - 1 ==> eqv(#[trigger] s[m], s[m + 1]),
        i == s.len() || !eqv(s[i - 1], s[i]),
    ensures
        run_len(s, r, eqv) == i - r,
    decreases i - r,
{
    if r == i - 1 {
    } else {
        lemma_run_len_exact(s, r + 1, i, eqv);
        assert(eqv(s[r], s[r + 1]));
    }
}

/// The image of one executable tagged pair.
pub open spec fn pv1(p: TaggedPairX) -> TaggedPair {
    (p.0, p.1, p.2 as int)
}

/// Appending a tagged pair appends its image.
proof fn lemma_pviews_push(s: Seq<TaggedPairX>, x: TaggedPairX)
    ensures
        pviews(s.push(x)) =~= pviews(s).push(pv1(x)),
{
}

/// Removing the head of a tagged pair vector drops the head image.
proof fn lemma_pviews_remove0(s: Seq<TaggedPairX>)
    requires
        s.len() > 0,
    ensures
        pviews(s.remove(0)) =~= pviews(s).remove(0),
        pviews(s).remove(0) =~= pviews(s).drop_first(),
{
}

/// A strictly sorted sequence stays strictly sorted without its head.
proof fn lemma_psorted_remove0(s: Seq<TaggedPair>, lt: spec_fn(TaggedPair, TaggedPair) -> bool)
    requires
        strictly_sorted_by(s, lt),
        s.len() > 0,
    ensures
        strictly_sorted_by(s.remove(0), lt),
{
    assert forall|i: int, j: int|
        #![trigger s.remove(0)[i], s.remove(0)[j]]
        0 <= i < j < s.remove(0).len() implies lt(s.remove(0)[i], s.remove(0)[j]) by {
        assert(s.remove(0)[i] == s[i + 1] && s.remove(0)[j] == s[j + 1]);
    }
}

/// Decides the first sort's strict order between two tagged pairs.
fn plt_exec(a: &TaggedPairX, b: &TaggedPairX) -> (r: bool)
    ensures
        r == plt(pv1(*a), pv1(*b)),
{
    if bits::lt_bits_exec(a.0, b.0) {
        true
    } else if bits::lt_bits_exec(b.0, a.0) {
        false
    } else if bits::lt_bits_exec(a.1, b.1) {
        true
    } else if bits::lt_bits_exec(b.1, a.1) {
        false
    } else {
        a.2 < b.2
    }
}

/// Decides the second sort's strict order between two tagged pairs.
fn ylt_exec(a: &TaggedPairX, b: &TaggedPairX) -> (r: bool)
    ensures
        r == ylt(pv1(*a), pv1(*b)),
{
    if bits::lt_bits_exec(a.1, b.1) {
        true
    } else if bits::lt_bits_exec(b.1, a.1) {
        false
    } else {
        a.2 < b.2
    }
}

/// Merges two runs strictly sorted by x-then-y-then-tag, with disjoint
/// tags, into one such run with the contents of both.
fn pmerge_lex(a: Vec<TaggedPairX>, b: Vec<TaggedPairX>) -> (r: Vec<TaggedPairX>)
    requires
        strictly_sorted_by(pviews(a@), plt_fn()),
        strictly_sorted_by(pviews(b@), plt_fn()),
        forall|i: int, j: int|
            #![trigger pviews(a@)[i], pviews(b@)[j]]
            0 <= i < a@.len() && 0 <= j < b@.len() ==> pviews(a@)[i].2 != pviews(b@)[j].2,
    ensures
        strictly_sorted_by(pviews(r@), plt_fn()),
        pviews(r@).to_multiset() == pviews(a@).to_multiset().add(pviews(b@).to_multiset()),
        r@.len() == a@.len() + b@.len(),
{
    broadcast use vstd::multiset::group_multiset_axioms;

    let ghost ms0 = pviews(a@).to_multiset().add(pviews(b@).to_multiset());
    let ghost total_len = a@.len() + b@.len();
    let mut a = a;
    let mut b = b;
    let mut out: Vec<TaggedPairX> = Vec::new();
    while a.len() > 0 || b.len() > 0
        invariant
            strictly_sorted_by(pviews(a@), plt_fn()),
            strictly_sorted_by(pviews(b@), plt_fn()),
            strictly_sorted_by(pviews(out@), plt_fn()),
            forall|i: int, j: int|
                #![trigger pviews(a@)[i], pviews(b@)[j]]
                0 <= i < a@.len() && 0 <= j < b@.len() ==> pviews(a@)[i].2 != pviews(b@)[j].2,
            forall|i: int, j: int|
                #![trigger pviews(out@)[i], pviews(a@)[j]]
                0 <= i < out@.len() && 0 <= j < a@.len() ==> plt(pviews(out@)[i], pviews(a@)[j]),
            forall|i: int, j: int|
                #![trigger pviews(out@)[i], pviews(b@)[j]]
                0 <= i < out@.len() && 0 <= j < b@.len() ==> plt(pviews(out@)[i], pviews(b@)[j]),
            pviews(out@).to_multiset().add(pviews(a@).to_multiset()).add(
                pviews(b@).to_multiset(),
            ) == ms0,
            out@.len() + a@.len() + b@.len() == total_len,
        decreases a@.len() + b@.len(),
    {
        let ghost outseq = out@;
        let ghost aseq = a@;
        let ghost bseq = b@;
        let take_a = if b.len() == 0 {
            true
        } else if a.len() == 0 {
            false
        } else {
            !plt_exec(&b[0], &a[0])
        };
        if take_a {
            let x = a.remove(0);
            proof {
                let xv = pv1(aseq[0]);
                assert(pviews(aseq)[0] == xv);
                lemma_pviews_remove0(aseq);
                lemma_psorted_remove0(pviews(aseq), plt_fn());
                assert(bseq.len() > 0 ==> plt(xv, pviews(bseq)[0])) by {
                    if bseq.len() > 0 {
                        assert(pviews(aseq)[0].2 != pviews(bseq)[0].2);
                    }
                }
                lemma_pviews_push(outseq, aseq[0]);
            }
            out.push(x);
            proof {
                let xv = pv1(aseq[0]);
                assert(pviews(out@) =~= pviews(outseq).push(xv));
                assert(pviews(a@) =~= pviews(aseq).remove(0));
                assert(pviews(aseq).remove(0).to_multiset() =~= pviews(aseq).to_multiset().remove(
                    xv,
                ));
                assert(pviews(aseq).to_multiset().contains(xv)) by {
                    assert(pviews(aseq).contains(xv));
                }
                assert(pviews(out@).to_multiset().add(pviews(a@).to_multiset()).add(
                    pviews(b@).to_multiset(),
                ) =~= ms0);
                assert forall|i: int, j: int|
                    #![trigger pviews(out@)[i], pviews(b@)[j]]
                    0 <= i < out@.len() && 0 <= j < b@.len() implies plt(
                    pviews(out@)[i],
                    pviews(b@)[j],
                ) by {
                    if i < outseq.len() {
                        assert(pviews(out@)[i] == pviews(outseq)[i]);
                    } else {
                        assert(pviews(out@)[i] == xv);
                        assert(plt(xv, pviews(bseq)[0]));
                        if j > 0 {
                            assert(plt(pviews(bseq)[0], pviews(bseq)[j]));
                        }
                    }
                }
                assert forall|i: int, j: int|
                    #![trigger pviews(out@)[i], pviews(a@)[j]]
                    0 <= i < out@.len() && 0 <= j < a@.len() implies plt(
                    pviews(out@)[i],
                    pviews(a@)[j],
                ) by {
                    assert(pviews(a@)[j] == pviews(aseq)[j + 1]);
                    if i < outseq.len() {
                        assert(pviews(out@)[i] == pviews(outseq)[i]);
                    } else {
                        assert(pviews(out@)[i] == xv);
                        assert(plt(pviews(aseq)[0], pviews(aseq)[j + 1]));
                    }
                }
                assert(strictly_sorted_by(pviews(out@), plt_fn())) by {
                    assert forall|i: int, j: int|
                        #![trigger pviews(out@)[i], pviews(out@)[j]]
                        0 <= i < j < out@.len() implies plt(pviews(out@)[i], pviews(out@)[j]) by {
                        if j < outseq.len() {
                            assert(pviews(out@)[i] == pviews(outseq)[i]);
                            assert(pviews(out@)[j] == pviews(outseq)[j]);
                        } else {
                            assert(pviews(out@)[j] == xv);
                            assert(pviews(out@)[i] == pviews(outseq)[i]);
                            assert(plt(pviews(outseq)[i], pviews(aseq)[0]));
                        }
                    }
                }
            }
        } else {
            let x = b.remove(0);
            proof {
                let xv = pv1(bseq[0]);
                assert(pviews(bseq)[0] == xv);
                lemma_pviews_remove0(bseq);
                lemma_psorted_remove0(pviews(bseq), plt_fn());
                assert(aseq.len() > 0 ==> plt(xv, pviews(aseq)[0]));
                lemma_pviews_push(outseq, bseq[0]);
            }
            out.push(x);
            proof {
                let xv = pv1(bseq[0]);
                assert(pviews(out@) =~= pviews(outseq).push(xv));
                assert(pviews(b@) =~= pviews(bseq).remove(0));
                assert(pviews(bseq).remove(0).to_multiset() =~= pviews(bseq).to_multiset().remove(
                    xv,
                ));
                assert(pviews(bseq).to_multiset().contains(xv)) by {
                    assert(pviews(bseq).contains(xv));
                }
                assert(pviews(out@).to_multiset().add(pviews(a@).to_multiset()).add(
                    pviews(b@).to_multiset(),
                ) =~= ms0);
                assert forall|i: int, j: int|
                    #![trigger pviews(out@)[i], pviews(a@)[j]]
                    0 <= i < out@.len() && 0 <= j < a@.len() implies plt(
                    pviews(out@)[i],
                    pviews(a@)[j],
                ) by {
                    if i < outseq.len() {
                        assert(pviews(out@)[i] == pviews(outseq)[i]);
                    } else {
                        assert(pviews(out@)[i] == xv);
                        assert(plt(xv, pviews(aseq)[0]));
                        if j > 0 {
                            assert(plt(pviews(aseq)[0], pviews(aseq)[j]));
                        }
                    }
                }
                assert forall|i: int, j: int|
                    #![trigger pviews(out@)[i], pviews(b@)[j]]
                    0 <= i < out@.len() && 0 <= j < b@.len() implies plt(
                    pviews(out@)[i],
                    pviews(b@)[j],
                ) by {
                    assert(pviews(b@)[j] == pviews(bseq)[j + 1]);
                    if i < outseq.len() {
                        assert(pviews(out@)[i] == pviews(outseq)[i]);
                    } else {
                        assert(pviews(out@)[i] == xv);
                        assert(plt(pviews(bseq)[0], pviews(bseq)[j + 1]));
                    }
                }
                assert(strictly_sorted_by(pviews(out@), plt_fn())) by {
                    assert forall|i: int, j: int|
                        #![trigger pviews(out@)[i], pviews(out@)[j]]
                        0 <= i < j < out@.len() implies plt(pviews(out@)[i], pviews(out@)[j]) by {
                        if j < outseq.len() {
                            assert(pviews(out@)[i] == pviews(outseq)[i]);
                            assert(pviews(out@)[j] == pviews(outseq)[j]);
                        } else {
                            assert(pviews(out@)[j] == xv);
                            assert(pviews(out@)[i] == pviews(outseq)[i]);
                            assert(plt(pviews(outseq)[i], pviews(bseq)[0]));
                        }
                    }
                }
                assert forall|i: int, j: int|
                    #![trigger pviews(a@)[i], pviews(b@)[j]]
                    0 <= i < a@.len() && 0 <= j < b@.len() implies pviews(a@)[i].2 != pviews(
                    b@,
                )[j].2 by {
                    assert(pviews(b@)[j] == pviews(bseq)[j + 1]);
                }
            }
        }
    }
    out
}

/// A sequence with no entry above `e` contributes nothing to `cgt`.
proof fn lemma_cgt_none(s: Seq<TaggedPair>, e: TaggedPair)
    requires
        forall|i: int| 0 <= i < s.len() ==> !ygt(#[trigger] s[i], e),
    ensures
        cgt(s, e) == 0,
    decreases s.len(),
{
    if s.len() > 0 {
        lemma_cgt_none(s.drop_last(), e);
    }
}

/// A sequence with every entry above `e` contributes its whole length.
proof fn lemma_cgt_all(s: Seq<TaggedPair>, e: TaggedPair)
    requires
        forall|i: int| 0 <= i < s.len() ==> ygt(#[trigger] s[i], e),
    ensures
        cgt(s, e) == s.len(),
    decreases s.len(),
{
    if s.len() > 0 {
        lemma_cgt_all(s.drop_last(), e);
        assert(ygt(s.last(), e));
    }
}

/// Merges two runs strictly sorted by y-then-tag, the left one's tags all
/// below the right one's, counting for every emitted right-side entry the
/// left entries still unread: the swap count comes out as exactly the
/// number of out-of-order pairs across the two runs.
fn pmerge_y(a: Vec<TaggedPairX>, b: Vec<TaggedPairX>) -> (r: (Vec<TaggedPairX>, u64))
    requires
        strictly_sorted_by(pviews(a@), ylt_fn()),
        strictly_sorted_by(pviews(b@), ylt_fn()),
        forall|i: int, j: int|
            #![trigger pviews(a@)[i], pviews(b@)[j]]
            0 <= i < a@.len() && 0 <= j < b@.len() ==> pviews(a@)[i].2 < pviews(b@)[j].2,
        a@.len() + b@.len() <= 0x100000,
    ensures
        strictly_sorted_by(pviews(r.0@), ylt_fn()),
        pviews(r.0@).to_multiset() == pviews(a@).to_multiset().add(pviews(b@).to_multiset()),
        r.0@.len() == a@.len() + b@.len(),
        r.1 == cross_y(pviews(a@), pviews(b@)),
    decreases a@.len() + b@.len(),
{
    broadcast use vstd::multiset::group_multiset_axioms;

    let ghost a0v = pviews(a@);
    let ghost b0v = pviews(b@);
    let ghost ms0 = a0v.to_multiset().add(b0v.to_multiset());
    let ghost total_len = a@.len() + b@.len();
    let mut a = a;
    let mut b = b;
    let mut out: Vec<TaggedPairX> = Vec::new();
    let mut swaps: u64 = 0;
    proof {
        assert(pviews(a@) =~= a0v.subrange(a0v.len() - a@.len(), a0v.len() as int));
        assert(pviews(b@) =~= b0v.subrange(b0v.len() - b@.len(), b0v.len() as int));
        assert(b0v.subrange(0, 0) =~= Seq::<TaggedPair>::empty());
    }
    while a.len() > 0 || b.len() > 0
        invariant
            strictly_sorted_by(a0v, ylt_fn()),
            strictly_sorted_by(b0v, ylt_fn()),
            a@.len() <= a0v.len(),
            b@.len() <= b0v.len(),
            a0v.len() + b0v.len() == total_len,
            total_len <= 0x100000,
            pviews(a@) == a0v.subrange(a0v.len() - a@.len(), a0v.len() as int),
            pviews(b@) == b0v.subrange(b0v.len() - b@.len(), b0v.len() as int),
            forall|i: int, j: int|
                #![trigger a0v[i], b0v[j]]
                0 <= i < a0v.len() && 0 <= j < b0v.len() ==> a0v[i].2 < b0v[j].2,
            strictly_sorted_by(pviews(out@), ylt_fn()),
            forall|i: int, j: int|
                #![trigger pviews(out@)[i], pviews(a@)[j]]
                0 <= i < out@.len() && 0 <= j < a@.len() ==> ylt(pviews(out@)[i], pviews(a@)[j]),
            forall|i: int, j: int|
                #![trigger pviews(out@)[i], pviews(b@)[j]]
                0 <= i < out@.len() && 0 <= j < b@.len() ==> ylt(pviews(out@)[i], pviews(b@)[j]),
            pviews(out@).to_multiset().add(pviews(a@).to_multiset()).add(
                pviews(b@).to_multiset(),
            ) == ms0,
            out@.len() + a@.len() + b@.len() == total_len,
            forall|i: int, j: int|
                #![trigger a0v[i], pviews(b@)[j]]
                0 <= i < a0v.len() - a@.len() && 0 <= j < b@.len() ==> !ygt(
                    a0v[i],
                    pviews(b@)[j],
                ),
            swaps == cross_y(a0v, b0v.subrange(0, b0v.len() - b@.len())),
        decreases a@.len() + b@.len(),
    {
        let ghost outseq = out@;
        let ghost aseq = a@;
        let ghost bseq = b@;
        let ghost ka = a0v.len() - aseq.len();
        let ghost kb = b0v.len() - bseq.len();
        let take_a = if b.len() == 0 {
            true
        } else if a.len() == 0 {
            false
        } else {
            !ylt_exec(&b[0], &a[0])
        };
        if take_a {
            let x = a.remove(0);
            proof {
                let xv = pv1(aseq[0]);
                assert(pviews(aseq)[0] == xv);
                assert(xv == a0v[ka]);
                lemma_pviews_remove0(aseq);
                lemma_psorted_remove0(pviews(aseq), ylt_fn());
                assert(bseq.len() > 0 ==> ylt(xv, pviews(bseq)[0])) by {
                    if bseq.len() > 0 {
                        assert(pviews(bseq)[0] == b0v[kb]);
                        assert(a0v[ka].2 < b0v[kb].2);
                    }
                }
                lemma_pviews_push(outseq, aseq[0]);
            }
            out.push(x);
            proof {
                let xv = pv1(aseq[0]);
                assert(pviews(out@) =~= pviews(outseq).push(xv));
                assert(pviews(a@) =~= pviews(aseq).remove(0));
                assert(pviews(a@) =~= a0v.subrange(a0v.len() - a@.len(), a0v.len() as int));
                assert(pviews(aseq).remove(0).to_multiset() =~= pviews(aseq).to_multiset().remove(
                    xv,
                ));
                assert(pviews(aseq).to_multiset().contains(xv)) by {
                    assert(pviews(aseq).contains(xv));
                }
                assert(pviews(out@).to_multiset().add(pviews(a@).to_multiset()).add(
                    pviews(b@).to_multiset(),
                ) =~= ms0);
                assert forall|i: int, j: int|
                    #![trigger pviews(out@)[i], pviews(b@)[j]]
                    0 <= i < out@.len() && 0 <= j < b@.len() implies ylt(
                    pviews(out@)[i],
                    pviews(b@)[j],
                ) by {
                    if i < outseq.len() {
                        assert(pviews(out@)[i] == pviews(outseq)[i]);
                    } else {
                        assert(pviews(out@)[i] == xv);
                        assert(ylt(xv, pviews(bseq)[0]));
                        if j > 0 {
                            assert(ylt(pviews(bseq)[0], pviews(bseq)[j]));
                        }
                    }
                }
                assert forall|i: int, j: int|
                    #![trigger pviews(out@)[i], pviews(a@)[j]]
                    0 <= i < out@.len() && 0 <= j < a@.len() implies ylt(
                    pviews(out@)[i],
                    pviews(a@)[j],
                ) by {
                    assert(pviews(a@)[j] == pviews(aseq)[j + 1]);
                    if i < outseq.len() {
                        assert(pviews(out@)[i] == pviews(outseq)[i]);
                    } else {
                        assert(pviews(out@)[i] == xv);
                        assert(ylt(pviews(aseq)[0], pviews(aseq)[j + 1]));
                    }
                }
                assert(strictly_sorted_by(pviews(out@), ylt_fn())) by {
                    assert forall|i: int, j: int|
                        #![trigger pviews(out@)[i], pviews(out@)[j]]
                        0 <= i < j < out@.len() implies ylt(pviews(out@)[i], pviews(out@)[j]) by {
                        if j < outseq.len() {
                            assert(pviews(out@)[i] == pviews(outseq)[i]);
                            assert(pviews(out@)[j] == pviews(outseq)[j]);
                        } else {
                            assert(pviews(out@)[j] == xv);
                            assert(pviews(out@)[i] == pviews(outseq)[i]);
                            assert(ylt(pviews(outseq)[i], pviews(aseq)[0]));
                        }
                    }
                }
                // The entry just consumed from the left can no longer form
                // an out-of-order pair with any unread right entry.
                assert forall|i: int, j: int|
                    #![trigger a0v[i], pviews(b@)[j]]
                    0 <= i < a0v.len() - a@.len() && 0 <= j < b@.len() implies !ygt(
                    a0v[i],
                    pviews(b@)[j],
                ) by {
                    assert(pviews(b@)[j] == pviews(bseq)[j]);
                    if i < ka {
                        assert(!ygt(a0v[i], pviews(bseq)[j]));
                    } else {
                        assert(a0v[i] == xv);
                        assert(pviews(bseq)[j] == b0v[kb + j]);
                        assert(!ylt(b0v[kb], xv));
                        assert(xv.2 < b0v[kb].2);
                        assert(fkey(xv.1) <= fkey(b0v[kb].1));
                        if j > 0 {
                            assert(ylt(pviews(bseq)[0], pviews(bseq)[j]));
                        }
                    }
                }
            }
        } else {
            let ghost e = pv1(bseq[0]);
            proof {
                assert(pviews(bseq)[0] == e);
                assert(e == b0v[kb]);
                // Every unread left entry is above `e`, every consumed one
                // is not, so the swap increment is exactly `cgt(a0v, e)`.
                assert forall|j: int| 0 <= j < aseq.len() implies ygt(
                    #[trigger] pviews(aseq)[j],
                    e,
                ) by {
                    assert(ylt(e, pviews(aseq)[0]));
                    assert(pviews(aseq)[0] == a0v[ka]);
                    assert(a0v[ka].2 < e.2);
                    assert(fkey(e.1) < fkey(a0v[ka].1));
                    assert(pviews(aseq)[j] == a0v[ka + j]);
                    if j > 0 {
                        assert(ylt(a0v[ka], a0v[ka + j]));
                        assert(a0v[ka].2 < b0v[kb].2);
                    }
                }
                lemma_cgt_all(pviews(aseq), e);
                let consumed = a0v.subrange(0, ka);
                assert forall|i: int| 0 <= i < consumed.len() implies !ygt(
                    #[trigger] consumed[i],
                    e,
                ) by {
                    assert(consumed[i] == a0v[i]);
                    assert(pviews(bseq)[0] == e);
                    assert(!ygt(a0v[i], pviews(bseq)[0]));
                }
                lemma_cgt_none(consumed, e);
                assert(a0v =~= consumed + pviews(aseq));
                lemma_cgt_concat(consumed, pviews(aseq), e);
                assert(cgt(a0v, e) == aseq.len());
                lemma_cross_le(a0v, b0v.subrange(0, kb));
                assert(a0v.len() * kb + a0v.len() <= a0v.len() * b0v.len()) by (nonlinear_arith)
                    requires
                        kb < b0v.len(),
                        a0v.len() >= 0,
                        kb >= 0,
                ;
                assert(a0v.len() * b0v.len() <= 0x100000 * 0x100000) by (nonlinear_arith)
                    requires
                        0 <= a0v.len(),
                        0 <= b0v.len(),
                        a0v.len() + b0v.len() <= 0x100000,
                ;
            }
            swaps = swaps + (a.len() as u64);
            let x = b.remove(0);
            proof {
                let xv = e;
                assert(pviews(bseq)[0] == xv);
                lemma_pviews_remove0(bseq);
                lemma_psorted_remove0(pviews(bseq), ylt_fn());
                assert(aseq.len() > 0 ==> ylt(xv, pviews(aseq)[0])) by {
                    if aseq.len() > 0 {
                        assert(pviews(aseq)[0] == a0v[ka]);
                        assert(a0v[ka].2 < b0v[kb].2);
                    }
                }
                lemma_pviews_push(outseq, bseq[0]);
            }
            out.push(x);
            proof {
                let xv = e;
                assert(pviews(out@) =~= pviews(outseq).push(xv));
                assert(pviews(b@) =~= pviews(bseq).remove(0));
                assert(pviews(b@) =~= b0v.subrange(b0v.len() - b@.len(), b0v.len() as int));
                assert(pviews(bseq).remove(0).to_multiset() =~= pviews(bseq).to_multiset().remove(
                    xv,
                ));
                assert(pviews(bseq).to_multiset().contains(xv)) by {
                    assert(pviews(bseq).contains(xv));
                }
                assert(pviews(out@).to_multiset().add(pviews(a@).to_multiset()).add(
                    pviews(b@).to_multiset(),
                ) =~= ms0);
                assert forall|i: int, j: int|
                    #![trigger pviews(out@)[i], pviews(a@)[j]]
                    0 <= i < out@.len() && 0 <= j < a@.len() implies ylt(
                    pviews(out@)[i],
                    pviews(a@)[j],
                ) by {
                    if i < outseq.len() {
                        assert(pviews(out@)[i] == pviews(outseq)[i]);
                    } else {
                        assert(pviews(out@)[i] == xv);
                        assert(ylt(xv, pviews(aseq)[0]));
                        if j > 0 {
                            assert(ylt(pviews(aseq)[0], pviews(aseq)[j]));
                        }
                    }
                }
                assert forall|i: int, j: int|
                    #![trigger pviews(out@)[i], pviews(b@)[j]]
                    0 <= i < out@.len() && 0 <= j < b@.len() implies ylt(
                    pviews(out@)[i],
                    pviews(b@)[j],
                ) by {
                    assert(pviews(b@)[j] == pviews(bseq)[j + 1]);
                    if i < outseq.len() {
                        assert(pviews(out@)[i] == pviews(outseq)[i]);
                    } else {
                        assert(pviews(out@)[i] == xv);
                        assert(ylt(pviews(bseq)[0], pviews(bseq)[j + 1]));
                    }
                }
                assert(strictly_sorted_by(pviews(out@), ylt_fn())) by {
                    assert forall|i: int, j: int|
                        #![trigger pviews(out@)[i], pviews(out@)[j]]
                        0 <= i < j < out@.len() implies ylt(pviews(out@)[i], pviews(out@)[j]) by {
                        if j < outseq.len() {
                            assert(pviews(out@)[i] == pviews(outseq)[i]);
                            assert(pviews(out@)[j] == pviews(outseq)[j]);
                        } else {
                            assert(pviews(out@)[j] == xv);
                            assert(pviews(out@)[i] == pviews(outseq)[i]);
                            assert(ylt(pviews(outseq)[i], pviews(bseq)[0]));
                        }
                    }
                }
                assert forall|i: int, j: int|
                    #![trigger a0v[i], pviews(b@)[j]]
                    0 <= i < a0v.len() - a@.len() && 0 <= j < b@.len() implies !ygt(
                    a0v[i],
                    pviews(b@)[j],
                ) by {
                    assert(pviews(b@)[j] == pviews(bseq)[j + 1]);
                }
                assert(b0v.subrange(0, kb + 1) =~= b0v.subrange(0, kb).push(b0v[kb]));
                assert(b0v.subrange(0, kb).push(b0v[kb]).drop_last() =~= b0v.subrange(0, kb));
                assert(cross_y(a0v, b0v.subrange(0, kb + 1)) == cross_y(a0v, b0v.subrange(0, kb))
                    + cgt(a0v, b0v[kb]));
            }
        }
    }
    proof {
        assert(b0v.subrange(0, b0v.len() as int) =~= b0v);
        assert(pviews(a@).to_multiset().len() == 0);
        assert(pviews(b@).to_multiset().len() == 0);
        assert(pviews(out@).to_multiset().add(pviews(a@).to_multiset()).add(
            pviews(b@).to_multiset(),
        ) =~= pviews(out@).to_multiset());
    }
    (out, swaps)
}

/// Sorts tagged pairs by x, ties by y, then tag: the first pass of the
/// tau-b computation.
fn psort_lex(v: Vec<TaggedPairX>) -> (r: Vec<TaggedPairX>)
    requires
        forall|i: int, j: int|
            #![trigger pviews(v@)[i], pviews(v@)[j]]
            0 <= i < j < v@.len() ==> pviews(v@)[i].2 != pviews(v@)[j].2,
    ensures
        strictly_sorted_by(pviews(r@), plt_fn()),
        pviews(r@).to_multiset() == pviews(v@).to_multiset(),
        r@.len() == v@.len(),
    decreases v@.len(),
{
    broadcast use vstd::multiset::group_multiset_axioms;

    if v.len() <= 1 {
        v
    } else {
        let ghost v0 = v@;
        let mut left = v;
        let mid = left.len() / 2;
        let right = left.split_off(mid);
        proof {
            assert(pviews(left@) =~= pviews(v0).subrange(0, mid as int));
            assert(pviews(right@) =~= pviews(v0).subrange(mid as int, v0.len() as int));
            assert forall|i: int, j: int|
                #![trigger pviews(right@)[i], pviews(right@)[j]]
                0 <= i < j < right@.len() implies pviews(right@)[i].2 != pviews(right@)[j].2 by {
                assert(pviews(right@)[i] == pviews(v0)[i + mid]);
                assert(pviews(right@)[j] == pviews(v0)[j + mid]);
            }
        }
        let ghost lseq = pviews(left@);
        let ghost rseq = pviews(right@);
        let ls = psort_lex(left);
        let rs = psort_lex(right);
        proof {
            assert forall|i: int, j: int|
                #![trigger pviews(ls@)[i], pviews(rs@)[j]]
                0 <= i < ls@.len() && 0 <= j < rs@.len() implies pviews(ls@)[i].2 != pviews(
                rs@,
            )[j].2 by {
                assert(lseq.to_multiset().contains(pviews(ls@)[i])) by {
                    assert(pviews(ls@).contains(pviews(ls@)[i]));
                }
                assert(rseq.to_multiset().contains(pviews(rs@)[j])) by {
                    assert(pviews(rs@).contains(pviews(rs@)[j]));
                }
                assert(lseq.contains(pviews(ls@)[i]));
                assert(rseq.contains(pviews(rs@)[j]));
                let p = choose|p: int| 0 <= p < lseq.len() && #[trigger] lseq[p] == pviews(ls@)[i];
                let q = choose|q: int| 0 <= q < rseq.len() && #[trigger] rseq[q] == pviews(rs@)[j];
                assert(lseq[p] == pviews(v0)[p]);
                assert(rseq[q] == pviews(v0)[q + mid]);
            }
        }
        let merged = pmerge_lex(ls, rs);
        proof {
            assert(pviews(v0) =~= lseq + rseq);
            vstd::seq_lib::lemma_multiset_commutative(lseq, rseq);
            assert(pviews(merged@).to_multiset() =~= pviews(v0).to_multiset());
        }
        merged
    }
}

/// Sorts tagged pairs by y, ties by tag, and counts the inversions: the
/// swap total equals the number of position pairs whose y values read out
/// of order in the input.
fn psort_y(v: Vec<TaggedPairX>, Ghost(base): Ghost<int>) -> (r: (Vec<TaggedPairX>, u64))
    requires
        forall|i: int| 0 <= i < v@.len() ==> (#[trigger] pviews(v@)[i]).2 == base + i,
        v@.len() <= 0x100000,
    ensures
        strictly_sorted_by(pviews(r.0@), ylt_fn()),
        pviews(r.0@).to_multiset() == pviews(v@).to_multiset(),
        r.0@.len() == v@.len(),
        r.1 == inv_y(pviews(v@)),
    decreases v@.len(),
{
    broadcast use vstd::multiset::group_multiset_axioms;

    if v.len() <= 1 {
        proof {
            if v@.len() == 1 {
                assert(pviews(v@).drop_last() =~= Seq::<TaggedPair>::empty());
                assert(inv_y(pviews(v@).drop_last()) == 0);
                assert(cgt(pviews(v@).drop_last(), pviews(v@).last()) == 0);
                assert(inv_y(pviews(v@)) == 0);
            }
        }
        (v, 0)
    } else {
        let ghost v0 = v@;
        let mut left = v;
        let mid = left.len() / 2;
        let right = left.split_off(mid);
        proof {
            assert(pviews(left@) =~= pviews(v0).subrange(0, mid as int));
            assert(pviews(right@) =~= pviews(v0).subrange(mid as int, v0.len() as int));
            assert forall|i: int| 0 <= i < right@.len() implies (#[trigger] pviews(right@)[i]).2
                == base + mid + i by {
                assert(pviews(right@)[i] == pviews(v0)[i + mid]);
            }
        }
        let ghost lseq = pviews(left@);
        let ghost rseq = pviews(right@);
        let (ls, sl) = psort_y(left, Ghost(base));
        let (rs, sr) = psort_y(right, Ghost(base + mid as int));
        proof {
            assert forall|i: int, j: int|
                #![trigger pviews(ls@)[i], pviews(rs@)[j]]
                0 <= i < ls@.len() && 0 <= j < rs@.len() implies pviews(ls@)[i].2 < pviews(
                rs@,
            )[j].2 by {
                assert(lseq.to_multiset().contains(pviews(ls@)[i])) by {
                    assert(pviews(ls@).contains(pviews(ls@)[i]));
                }
                assert(rseq.to_multiset().contains(pviews(rs@)[j])) by {
                    assert(pviews(rs@).contains(pviews(rs@)[j]));
                }
                assert(lseq.contains(pviews(ls@)[i]));
                assert(rseq.contains(pviews(rs@)[j]));
                let p = choose|p: int| 0 <= p < lseq.len() && #[trigger] lseq[p] == pviews(ls@)[i];
                let q = choose|q: int| 0 <= q < rseq.len() && #[trigger] rseq[q] == pviews(rs@)[j];
                assert(lseq[p].2 == base + p);
                assert(rseq[q].2 == base + mid + q);
            }
            lemma_inv_le(lseq);
            lemma_inv_le(rseq);
            lemma_cross_le(pviews(ls@), pviews(rs@));
            assert(lseq.len() * lseq.len() + rseq.len() * rseq.len() + pviews(ls@).len() * pviews(
                rs@,
            ).len() <= 0x100000 * 0x100000) by (nonlinear_arith)
                requires
                    0 <= lseq.len(),
                    0 <= rseq.len(),
                    lseq.len() + rseq.len() <= 0x100000,
                    pviews(ls@).len() == lseq.len(),
                    pviews(rs@).len() == rseq.len(),
            ;
        }
        let (merged, cross) = pmerge_y(ls, rs);
        proof {
            assert(pviews(v0) =~= lseq + rseq);
            vstd::seq_lib::lemma_multiset_commutative(lseq, rseq);
            assert(pviews(merged@).to_multiset() =~= pviews(v0).to_multiset());
            lemma_inv_split(lseq, rseq);
            lemma_cross_multiset(pviews(ls@), lseq, pviews(rs@), rseq);
        }
        (merged, sl + sr + cross)
    }
}

/// The x-tie relation as a relation value.
pub open spec fn eqx_fn() -> spec_fn(TaggedPair, TaggedPair) -> bool {
    |a: TaggedPair, b: TaggedPair| eqx(a, b)
}

/// The y-tie relation as a relation value.
pub open spec fn eqy_fn() -> spec_fn(TaggedPair, TaggedPair) -> bool {
    |a: TaggedPair, b: TaggedPair| eqy(a, b)
}

/// The both-coordinates tie relation as a relation value.
pub open spec fn eqxy_fn() -> spec_fn(TaggedPair, TaggedPair) -> bool {
    |a: TaggedPair, b: TaggedPair| eqxy(a, b)
}

/// A tied group's contribution to the variance term: g(g−1)(2g+5).
pub open spec fn f_vt() -> spec_fn(int) -> int {
    |g: int| g * (g - 1) * (2 * g + 5)
}

/// Twice a tied group's pair count: g(g−1).
pub open spec fn f_p2() -> spec_fn(int) -> int {
    |g: int| g * (g - 1)
}

/// A tied group's third-moment contribution: g(g−1)(g−2).
pub open spec fn f_v2() -> spec_fn(int) -> int {
    |g: int| g * (g - 1) * (g - 2)
}

/// Every run contribution bounded by c·g³ keeps the whole sum within
/// c·(remaining length)³.
proof fn lemma_runs_sum_bound(
    s: Seq<TaggedPair>,
    i: int,
    eqv: spec_fn(TaggedPair, TaggedPair) -> bool,
    f: spec_fn(int) -> int,
    c: int,
)
    requires
        0 <= i <= s.len(),
        c >= 0,
        forall|g: int| g >= 1 ==> 0 <= #[trigger] f(g) <= c * g * g * g,
    ensures
        0 <= runs_sum(s, i, eqv, f) <= c * (s.len() - i) * (s.len() - i) * (s.len() - i),
    decreases s.len() - i,
{
    if i >= s.len() {
    } else {
        lemma_run_len_bounds(s, i, eqv);
        let g = run_len(s, i, eqv) as int;
        lemma_runs_sum_bound(s, i + g, eqv, f, c);
        let rest = s.len() - i - g;
        assert(c * g * g * g + c * rest * rest * rest <= c * (g + rest) * (g + rest) * (g + rest))
            by (nonlinear_arith)
            requires
                g >= 1,
                rest >= 0,
                c >= 0,
        ;
    }
}

/// Decides whether two bit patterns share their order key.
fn keq_exec(a: u64, b: u64) -> (r: bool)
    ensures
        r == (fkey(a) == fkey(b)),
{
    bits::le_bits_exec(a, b) && bits::le_bits_exec(b, a)
}

/// Triangular count: the number of tied pairs among n+1 tied entries.
fn sum(n: u64) -> (r: u64)
    requires
        n <= 0x100000,
    ensures
        2 * r == n * (n + 1),
        r <= 0x100000 * 0x100001,
{
    proof {
        let m = n as int;
        assert(m * (m + 1) <= 0x100000 * 0x100001) by (nonlinear_arith)
            requires
                0 <= m <= 0x100000,
        ;
        if n % 2 == 0 {
            assert(2 * ((m / 2) * (m + 1)) == m * (m + 1)) by (nonlinear_arith)
                requires
                    m >= 0 && m % 2 == 0,
            ;
        } else {
            assert(2 * (m * ((m + 1) / 2)) == m * (m + 1)) by (nonlinear_arith)
                requires
                    m >= 0 && m % 2 == 1,
            ;
        }
    }
    if n % 2 == 0 {
        (n / 2) * (n + 1)
    } else {
        n * ((n + 1) / 2)
    }
}

/// Folds one maximal group of x-tied pairs (with its trailing group of
/// xy-tied pairs) into the x-side accumulators.
fn update_x_group(
    vt: &mut u64,
    tied_x_pairs: &mut u64,
    tied_xy_pairs: &mut u64,
    v1_part_1: &mut u64,
    v2_part_1: &mut i64,
    consecutive_x_ties: u64,
    consecutive_xy_ties: u64,
)
    requires
        1 <= consecutive_x_ties <= 0x100000,
        1 <= consecutive_xy_ties <= 0x100000,
        *old(vt) + f_vt()(consecutive_x_ties as int) <= u64::MAX,
        2 * *old(tied_x_pairs) + f_p2()(consecutive_x_ties as int) <= u64::MAX,
        2 * *old(tied_xy_pairs) + f_p2()(consecutive_xy_ties as int) <= u64::MAX,
        *old(v1_part_1) + f_p2()(consecutive_x_ties as int) <= u64::MAX,
        0 <= *old(v2_part_1),
        *old(v2_part_1) + f_v2()(consecutive_x_ties as int) <= i64::MAX,
    ensures
        *final(vt) == *old(vt) + f_vt()(consecutive_x_ties as int),
        2 * *final(tied_x_pairs) == 2 * *old(tied_x_pairs) + f_p2()(consecutive_x_ties as int),
        2 * *final(tied_xy_pairs) == 2 * *old(tied_xy_pairs) + f_p2()(consecutive_xy_ties as int),
        *final(v1_part_1) == *old(v1_part_1) + f_p2()(consecutive_x_ties as int),
        *final(v2_part_1) == *old(v2_part_1) + f_v2()(consecutive_x_ties as int),
{
    proof {
        let g = consecutive_x_ties as int;
        assert(0 <= g * (g - 1) * (2 * g + 5) <= 0x100000 * 0x100000 * (2 * 0x100000 + 5))
            by (nonlinear_arith)
            requires
                1 <= g <= 0x100000,
        ;
        assert(0 <= g * (g - 1) <= 0x100000 * 0x100000) by (nonlinear_arith)
            requires
                1 <= g <= 0x100000,
        ;
        assert(0 <= g * (g - 1) * (g - 2) <= 0x100000 * 0x100000 * 0x100000)
            by (nonlinear_arith)
            requires
                1 <= g <= 0x100000,
        ;
        let h = consecutive_xy_ties as int;
        assert(0 <= h * (h - 1) <= 0x100000 * 0x100000) by (nonlinear_arith)
            requires
                1 <= h <= 0x100000,
        ;
        assert((g - 1) * ((g - 1) + 1) == g * (g - 1)) by (nonlinear_arith);
        assert((h - 1) * ((h - 1) + 1) == h * (h - 1)) by (nonlinear_arith);
    }
    *vt = *vt + consecutive_x_ties * (consecutive_x_ties - 1) * (2 * consecutive_x_ties + 5);
    *v1_part_1 = *v1_part_1 + consecutive_x_ties * (consecutive_x_ties - 1);
    let consecutive_x_ties_i = consecutive_x_ties as i64;
    *v2_part_1 = *v2_part_1 + consecutive_x_ties_i * (consecutive_x_ties_i - 1) * (
    consecutive_x_ties_i - 2);
    *tied_x_pairs = *tied_x_pairs + sum(consecutive_x_ties - 1);
    *tied_xy_pairs = *tied_xy_pairs + sum(consecutive_xy_ties - 1);
}

/// Folds one maximal group of y-tied pairs into the y-side accumulators.
fn update_y_group(
    vu: &mut u64,
    tied_y_pairs: &mut u64,
    v1_part_2: &mut u64,
    v2_part_2: &mut i64,
    consecutive_y_ties: u64,
)
    requires
        1 <= consecutive_y_ties <= 0x100000,
        *old(vu) + f_vt()(consecutive_y_ties as int) <= u64::MAX,
        2 * *old(tied_y_pairs) + f_p2()(consecutive_y_ties as int) <= u64::MAX,
        *old(v1_part_2) + f_p2()(consecutive_y_ties as int) <= u64::MAX,
        0 <= *old(v2_part_2),
        *old(v2_part_2) + f_v2()(consecutive_y_ties as int) <= i64::MAX,
    ensures
        *final(vu) == *old(vu) + f_vt()(consecutive_y_ties as int),
        2 * *final(tied_y_pairs) == 2 * *old(tied_y_pairs) + f_p2()(consecutive_y_ties as int),
        *final(v1_part_2) == *old(v1_part_2) + f_p2()(consecutive_y_ties as int),
        *final(v2_part_2) == *old(v2_part_2) + f_v2()(consecutive_y_ties as int),
{
    proof {
        let g = consecutive_y_ties as int;
        assert(0 <= g * (g - 1) * (2 * g + 5) <= 0x100000 * 0x100000 * (2 * 0x100000 + 5))
            by (nonlinear_arith)
            requires
                1 <= g <= 0x100000,
        ;
        assert(0 <= g * (g - 1) <= 0x100000 * 0x100000) by (nonlinear_arith)
            requires
                1 <= g <= 0x100000,
        ;
        assert(0 <= g * (g - 1) * (g - 2) <= 0x100000 * 0x100000 * 0x100000)
            by (nonlinear_arith)
            requires
                1 <= g <= 0x100000,
        ;
        assert((g - 1) * ((g - 1) + 1) == g * (g - 1)) by (nonlinear_arith);
    }
    *vu = *vu + consecutive_y_ties * (consecutive_y_ties - 1) * (2 * consecutive_y_ties + 5);
    *v1_part_2 = *v1_part_2 + consecutive_y_ties * (consecutive_y_ties - 1);
    let consecutive_y_ties_i = consecutive_y_ties as i64;
    *v2_part_2 = *v2_part_2 + consecutive_y_ties_i * (consecutive_y_ties_i - 1) * (
    consecutive_y_ties_i - 2);
    *tied_y_pairs = *tied_y_pairs + sum(consecutive_y_ties - 1);
}

/// The variance contribution is bounded by seven cubes.
proof fn lemma_f_vt_bound()
    ensures
        forall|g: int| g >= 1 ==> 0 <= #[trigger] f_vt()(g) <= 7 * g * g * g,
{
    assert forall|g: int| g >= 1 implies 0 <= #[trigger] f_vt()(g) <= 7 * g * g * g by {
        assert(0 <= g * (g - 1) * (2 * g + 5) <= 7 * g * g * g) by (nonlinear_arith)
            requires
                g >= 1,
        ;
    }
}

/// The pair-count contribution is bounded by one cube.
proof fn lemma_f_p2_bound()
    ensures
        forall|g: int| g >= 1 ==> 0 <= #[trigger] f_p2()(g) <= 1 * g * g * g,
{
    assert forall|g: int| g >= 1 implies 0 <= #[trigger] f_p2()(g) <= 1 * g * g * g by {
        assert(0 <= g * (g - 1) <= 1 * g * g * g) by (nonlinear_arith)
            requires
                g >= 1,
        ;
    }
}

/// The third-moment contribution is bounded by one cube.
proof fn lemma_f_v2_bound()
    ensures
        forall|g: int| g >= 1 ==> 0 <= #[trigger] f_v2()(g) <= 1 * g * g * g,
{
    assert forall|g: int| g >= 1 implies 0 <= #[trigger] f_v2()(g) <= 1 * g * g * g by {
        assert(0 <= g * (g - 1) * (g - 2) <= 1 * g * g * g) by (nonlinear_arith)
            requires
                g >= 1,
        ;
    }
}

/// Concrete bounds of the three run contributions for group sizes the
/// engine admits.
proof fn lemma_f_concrete(g: int)
    requires
        1 <= g <= 0x100000,
    ensures
        0 <= f_vt()(g) <= 7 * 0x100000 * 0x100000 * 0x100000,
        0 <= f_p2()(g) <= 0x100000 * 0x100000 * 0x100000,
        0 <= f_v2()(g) <= 0x100000 * 0x100000 * 0x100000,
{
    assert(0 <= g * (g - 1) * (2 * g + 5) <= 7 * 0x100000 * 0x100000 * 0x100000)
        by (nonlinear_arith)
        requires
            1 <= g <= 0x100000,
    ;
    assert(0 <= g * (g - 1) <= 0x100000 * 0x100000 * 0x100000) by (nonlinear_arith)
        requires
            1 <= g <= 0x100000,
    ;
    assert(0 <= g * (g - 1) * (g - 2) <= 0x100000 * 0x100000 * 0x100000) by (nonlinear_arith)
        requires
            1 <= g <= 0x100000,
    ;
}

/// What one flush of a finished run needs: the run from `r` to `i` is one
/// maximal run, so the remaining sum splits off exactly its contribution,
/// and every partial sum stays within the engine's bound.
proof fn lemma_flush_facts(
    sv: Seq<TaggedPair>,
    r: int,
    i: int,
    eqv: spec_fn(TaggedPair, TaggedPair) -> bool,
    f: spec_fn(int) -> int,
    c: int,
)
    requires
        0 <= r < i <= sv.len(),
        sv.len() <= 0x100000,
        1 <= c <= 7,
        forall|g: int| g >= 1 ==> 0 <= #[trigger] f(g) <= c * g * g * g,
        forall|m: int| r <= m < i - 1 ==> eqv(#[trigger] sv[m], sv[m + 1]),
        i == sv.len() || !eqv(sv[i - 1], sv[i]),
    ensures
        runs_sum(sv, r, eqv, f) == f(i - r) + runs_sum(sv, i, eqv, f),
        0 <= runs_sum(sv, 0, eqv, f) <= 7 * 0x100000 * 0x100000 * 0x100000,
        0 <= runs_sum(sv, r, eqv, f) <= 7 * 0x100000 * 0x100000 * 0x100000,
        0 <= runs_sum(sv, i, eqv, f) <= 7 * 0x100000 * 0x100000 * 0x100000,
        0 <= f(i - r) <= 7 * 0x100000 * 0x100000 * 0x100000,
{
    lemma_run_len_exact(sv, r, i, eqv);
    lemma_runs_sum_bound(sv, 0, eqv, f, c);
    lemma_runs_sum_bound(sv, r, eqv, f, c);
    lemma_runs_sum_bound(sv, i, eqv, f, c);
    assert(c * (sv.len() - 0) * (sv.len() - 0) * (sv.len() - 0) <= 7 * 0x100000 * 0x100000
        * 0x100000) by (nonlinear_arith)
        requires
            1 <= c <= 7,
            0 <= sv.len() <= 0x100000,
    ;
    assert(c * (sv.len() - r) * (sv.len() - r) * (sv.len() - r) <= 7 * 0x100000 * 0x100000
        * 0x100000) by (nonlinear_arith)
        requires
            1 <= c <= 7,
            0 <= r,
            0 <= sv.len() <= 0x100000,
    ;
    assert(c * (sv.len() - i) * (sv.len() - i) * (sv.len() - i) <= 7 * 0x100000 * 0x100000
        * 0x100000) by (nonlinear_arith)
        requires
            1 <= c <= 7,
            0 <= i,
            0 <= sv.len() <= 0x100000,
    ;
    let g = i - r;
    assert(0 <= f(g) <= c * g * g * g);
    assert(c * g * g * g <= 7 * 0x100000 * 0x100000 * 0x100000) by (nonlinear_arith)
        requires
            1 <= c <= 7,
            1 <= g <= 0x100000,
    ;
}

/// Folds one finished run of xy-tied pairs into its accumulator,
/// re-anchoring the remaining-sum equation at the break position.
#[verifier::spinoff_prover]
fn flush_xy_run(
    tied_xy_pairs: &mut u64,
    consecutive_xy_ties: u64,
    Ghost(sv): Ghost<Seq<TaggedPair>>,
    Ghost(i): Ghost<int>,
)
    requires
        sv.len() <= 0x100000,
        1 <= consecutive_xy_ties,
        0 <= i - consecutive_xy_ties,
        i <= sv.len(),
        forall|m: int|
            i - consecutive_xy_ties <= m < i - 1 ==> eqxy(#[trigger] sv[m], sv[m + 1]),
        i == sv.len() || !eqxy(sv[i - 1], sv[i as int]),
        2 * (*old(tied_xy_pairs) as int) == runs_sum(sv, 0, eqxy_fn(), f_p2()) - runs_sum(
            sv,
            i - consecutive_xy_ties,
            eqxy_fn(),
            f_p2(),
        ),
    ensures
        2 * (*final(tied_xy_pairs) as int) == runs_sum(sv, 0, eqxy_fn(), f_p2()) - runs_sum(
            sv,
            i,
            eqxy_fn(),
            f_p2(),
        ),
{
    proof {
        lemma_f_p2_bound();
        lemma_flush_facts(sv, i - consecutive_xy_ties, i, eqxy_fn(), f_p2(), 1);
        lemma_f_concrete(consecutive_xy_ties as int);
        let g = consecutive_xy_ties as int;
        assert((g - 1) * ((g - 1) + 1) == f_p2()(g)) by (nonlinear_arith);
    }
    *tied_xy_pairs = *tied_xy_pairs + sum(consecutive_xy_ties - 1);
}

/// Folds one finished run of x-tied pairs (with its trailing xy run) into
/// the x-side accumulators, re-anchoring every remaining-sum equation at
/// the break position.
#[verifier::spinoff_prover]
fn flush_x_run(
    vt: &mut u64,
    tied_x_pairs: &mut u64,
    tied_xy_pairs: &mut u64,
    v1_part_1: &mut u64,
    v2_part_1: &mut i64,
    consecutive_x_ties: u64,
    consecutive_xy_ties: u64,
    Ghost(sv): Ghost<Seq<TaggedPair>>,
    Ghost(i): Ghost<int>,
)
    requires
        sv.len() <= 0x100000,
        1 <= consecutive_xy_ties <= consecutive_x_ties,
        0 <= i - consecutive_x_ties,
        i <= sv.len(),
        forall|m: int| i - consecutive_x_ties <= m < i - 1 ==> eqx(#[trigger] sv[m], sv[m + 1]),
        forall|m: int|
            i - consecutive_xy_ties <= m < i - 1 ==> eqxy(#[trigger] sv[m], sv[m + 1]),
        i == sv.len() || !eqx(sv[i - 1], sv[i as int]),
        i == sv.len() || !eqxy(sv[i - 1], sv[i as int]),
        *old(vt) as int == runs_sum(sv, 0, eqx_fn(), f_vt()) - runs_sum(
            sv,
            i - consecutive_x_ties,
            eqx_fn(),
            f_vt(),
        ),
        2 * (*old(tied_x_pairs) as int) == runs_sum(sv, 0, eqx_fn(), f_p2()) - runs_sum(
            sv,
            i - consecutive_x_ties,
            eqx_fn(),
            f_p2(),
        ),
        *old(v1_part_1) as int == runs_sum(sv, 0, eqx_fn(), f_p2()) - runs_sum(
            sv,
            i - consecutive_x_ties,
            eqx_fn(),
            f_p2(),
        ),
        0 <= *old(v2_part_1),
        *old(v2_part_1) as int == runs_sum(sv, 0, eqx_fn(), f_v2()) - runs_sum(
            sv,
            i - consecutive_x_ties,
            eqx_fn(),
            f_v2(),
        ),
        2 * (*old(tied_xy_pairs) as int) == runs_sum(sv, 0, eqxy_fn(), f_p2()) - runs_sum(
            sv,
            i - consecutive_xy_ties,
            eqxy_fn(),
            f_p2(),
        ),
    ensures
        *final(vt) as int == runs_sum(sv, 0, eqx_fn(), f_vt()) - runs_sum(sv, i, eqx_fn(), f_vt()),
        2 * (*final(tied_x_pairs) as int) == runs_sum(sv, 0, eqx_fn(), f_p2()) - runs_sum(
            sv,
            i,
            eqx_fn(),
            f_p2(),
        ),
        *final(v1_part_1) as int == runs_sum(sv, 0, eqx_fn(), f_p2()) - runs_sum(
            sv,
            i,
            eqx_fn(),
            f_p2(),
        ),
        0 <= *final(v2_part_1),
        *final(v2_part_1) as int == runs_sum(sv, 0, eqx_fn(), f_v2()) - runs_sum(
            sv,
            i,
            eqx_fn(),
            f_v2(),
        ),
        2 * (*final(tied_xy_pairs) as int) == runs_sum(sv, 0, eqxy_fn(), f_p2()) - runs_sum(
            sv,
            i,
            eqxy_fn(),
            f_p2(),
        ),
{
    proof {
        lemma_f_vt_bound();
        lemma_f_p2_bound();
        lemma_f_v2_bound();
        lemma_flush_facts(sv, i - consecutive_x_ties, i, eqx_fn(), f_vt(), 7);
        lemma_flush_facts(sv, i - consecutive_x_ties, i, eqx_fn(), f_p2(), 1);
        lemma_flush_facts(sv, i - consecutive_x_ties, i, eqx_fn(), f_v2(), 1);
        lemma_flush_facts(sv, i - consecutive_xy_ties, i, eqxy_fn(), f_p2(), 1);
        lemma_f_concrete(consecutive_x_ties as int);
        lemma_f_concrete(consecutive_xy_ties as int);
    }
    update_x_group(
        vt,
        tied_x_pairs,
        tied_xy_pairs,
        v1_part_1,
        v2_part_1,
        consecutive_x_ties,
        consecutive_xy_ties,
    );
}

/// Folds one finished run of y-tied pairs into the y-side accumulators,
/// re-anchoring every remaining-sum equation at the break position.
#[verifier::spinoff_prover]
fn flush_y_run(
    vu: &mut u64,
    tied_y_pairs: &mut u64,
    v1_part_2: &mut u64,
    v2_part_2: &mut i64,
    consecutive_y_ties: u64,
    Ghost(sv): Ghost<Seq<TaggedPair>>,
    Ghost(j): Ghost<int>,
)
    requires
        sv.len() <= 0x100000,
        1 <= consecutive_y_ties,
        0 <= j - consecutive_y_ties,
        j <= sv.len(),
        forall|m: int| j - consecutive_y_ties <= m < j - 1 ==> eqy(#[trigger] sv[m], sv[m + 1]),
        j == sv.len() || !eqy(sv[j - 1], sv[j as int]),
        *old(vu) as int == runs_sum(sv, 0, eqy_fn(), f_vt()) - runs_sum(
            sv,
            j - consecutive_y_ties,
            eqy_fn(),
            f_vt(),
        ),
        2 * (*old(tied_y_pairs) as int) == runs_sum(sv, 0, eqy_fn(), f_p2()) - runs_sum(
            sv,
            j - consecutive_y_ties,
            eqy_fn(),
            f_p2(),
        ),
        *old(v1_part_2) as int == runs_sum(sv, 0, eqy_fn(), f_p2()) - runs_sum(
            sv,
            j - consecutive_y_ties,
            eqy_fn(),
            f_p2(),
        ),
        0 <= *old(v2_part_2),
        *old(v2_part_2) as int == runs_sum(sv, 0, eqy_fn(), f_v2()) - runs_sum(
            sv,
            j - consecutive_y_ties,
            eqy_fn(),
            f_v2(),
        ),
    ensures
        *final(vu) as int == runs_sum(sv, 0, eqy_fn(), f_vt()) - runs_sum(sv, j, eqy_fn(), f_vt()),
        2 * (*final(tied_y_pairs) as int) == runs_sum(sv, 0, eqy_fn(), f_p2()) - runs_sum(
            sv,
            j,
            eqy_fn(),
            f_p2(),
        ),
        *final(v1_part_2) as int == runs_sum(sv, 0, eqy_fn(), f_p2()) - runs_sum(
            sv,
            j,
            eqy_fn(),
            f_p2(),
        ),
        0 <= *final(v2_part_2),
        *final(v2_part_2) as int == runs_sum(sv, 0, eqy_fn(), f_v2()) - runs_sum(
            sv,
            j,
            eqy_fn(),
            f_v2(),
        ),
{
    proof {
        lemma_f_vt_bound();
        lemma_f_p2_bound();
        lemma_f_v2_bound();
        lemma_flush_facts(sv, j - consecutive_y_ties, j, eqy_fn(), f_vt(), 7);
        lemma_flush_facts(sv, j - consecutive_y_ties, j, eqy_fn(), f_p2(), 1);
        lemma_flush_facts(sv, j - consecutive_y_ties, j, eqy_fn(), f_v2(), 1);
        lemma_f_concrete(consecutive_y_ties as int);
    }
    update_y_group(vu, tied_y_pairs, v1_part_2, v2_part_2, consecutive_y_ties);
}

/// Walks the x-sorted pairs once, folding every maximal run of x-tied pairs
/// (and of xy-tied pairs within it) into the x-side accumulators: the
/// variance term vt, the tied-pair counts for x and for xy, and the first
/// and third moment parts.
#[verifier::rlimit(100)]
fn x_tie_stats(pairs: &Vec<TaggedPairX>) -> (t: (u64, u64, u64, u64, i64))
    requires
        pairs@.len() <= 0x100000,
    ensures
        t.0 as int == runs_sum(pviews(pairs@), 0, eqx_fn(), f_vt()),
        2 * (t.1 as int) == runs_sum(pviews(pairs@), 0, eqx_fn(), f_p2()),
        2 * (t.2 as int) == runs_sum(pviews(pairs@), 0, eqxy_fn(), f_p2()),
        t.3 as int == runs_sum(pviews(pairs@), 0, eqx_fn(), f_p2()),
        t.4 as int == runs_sum(pviews(pairs@), 0, eqx_fn(), f_v2()),
        t.4 >= 0,
{
    let ghost sv = pviews(pairs@);
    let n = pairs.len();
    let mut vt: u64 = 0;
    let mut tied_x_pairs: u64 = 0;
    let mut tied_xy_pairs: u64 = 0;
    let mut v1_part_1: u64 = 0;
    let mut v2_part_1: i64 = 0;
    proof {
        lemma_f_vt_bound();
        lemma_f_p2_bound();
        lemma_f_v2_bound();
    }
    if n == 0 {
        return (0, 0, 0, 0, 0);
    }
    let mut consecutive_x_ties: u64 = 1;
    let mut consecutive_xy_ties: u64 = 1;
    let mut i: usize = 1;
    while i < n
        invariant
            sv == pviews(pairs@),
            n == pairs@.len(),
            n == sv.len(),
            n <= 0x100000,
            0 <= v2_part_1,
            1 <= i <= n,
            1 <= consecutive_x_ties <= i,
            1 <= consecutive_xy_ties <= consecutive_x_ties,
            forall|m: int|
                i - consecutive_x_ties <= m < i - 1 ==> eqx(#[trigger] sv[m], sv[m + 1]),
            forall|m: int|
                i - consecutive_xy_ties <= m < i - 1 ==> eqxy(#[trigger] sv[m], sv[m + 1]),
            vt as int == runs_sum(sv, 0, eqx_fn(), f_vt()) - runs_sum(
                sv,
                i - consecutive_x_ties,
                eqx_fn(),
                f_vt(),
            ),
            2 * (tied_x_pairs as int) == runs_sum(sv, 0, eqx_fn(), f_p2()) - runs_sum(
                sv,
                i - consecutive_x_ties,
                eqx_fn(),
                f_p2(),
            ),
            v1_part_1 as int == runs_sum(sv, 0, eqx_fn(), f_p2()) - runs_sum(
                sv,
                i - consecutive_x_ties,
                eqx_fn(),
                f_p2(),
            ),
            v2_part_1 as int == runs_sum(sv, 0, eqx_fn(), f_v2()) - runs_sum(
                sv,
                i - consecutive_x_ties,
                eqx_fn(),
                f_v2(),
            ),
            2 * (tied_xy_pairs as int) == runs_sum(sv, 0, eqxy_fn(), f_p2()) - runs_sum(
                sv,
                i - consecutive_xy_ties,
                eqxy_fn(),
                f_p2(),
            ),
        decreases n - i,
    {
        let tie_x = keq_exec(pairs[i - 1].0, pairs[i].0);
        let tie_y = keq_exec(pairs[i - 1].1, pairs[i].1);
        proof {
            assert(sv[i - 1] == pv1(pairs@[i - 1]));
            assert(sv[i as int] == pv1(pairs@[i as int]));
        }
        if tie_x {
            consecutive_x_ties = consecutive_x_ties + 1;
            if tie_y {
                consecutive_xy_ties = consecutive_xy_ties + 1;
            } else {
                flush_xy_run(
                    &mut tied_xy_pairs,
                    consecutive_xy_ties,
                    Ghost(sv),
                    Ghost(i as int),
                );
                consecutive_xy_ties = 1;
            }
        } else {
            let ghost rx = i - consecutive_x_ties as int;
            let ghost rxy = i - consecutive_xy_ties as int;
            flush_x_run(
                &mut vt,
                &mut tied_x_pairs,
                &mut tied_xy_pairs,
                &mut v1_part_1,
                &mut v2_part_1,
                consecutive_x_ties,
                consecutive_xy_ties,
                Ghost(sv),
                Ghost(i as int),
            );
            consecutive_x_ties = 1;
            consecutive_xy_ties = 1;
        }
        i = i + 1;
    }
    flush_x_run(
        &mut vt,
        &mut tied_x_pairs,
        &mut tied_xy_pairs,
        &mut v1_part_1,
        &mut v2_part_1,
        consecutive_x_ties,
        consecutive_xy_ties,
        Ghost(sv),
        Ghost(n as int),
    );
    proof {
        assert(runs_sum(sv, n as int, eqx_fn(), f_vt()) == 0);
        assert(runs_sum(sv, n as int, eqx_fn(), f_p2()) == 0);
        assert(runs_sum(sv, n as int, eqx_fn(), f_v2()) == 0);
        assert(runs_sum(sv, n as int, eqxy_fn(), f_p2()) == 0);
    }
    (vt, tied_x_pairs, tied_xy_pairs, v1_part_1, v2_part_1)
}

/// Walks the y-sorted pairs once, folding every maximal run of y-tied pairs
/// into the y-side accumulators.
#[verifier::rlimit(100)]
fn y_tie_stats(pairs: &Vec<TaggedPairX>) -> (t: (u64, u64, u64, i64))
    requires
        pairs@.len() <= 0x100000,
    ensures
        t.0 as int == runs_sum(pviews(pairs@), 0, eqy_fn(), f_vt()),
        2 * (t.1 as int) == runs_sum(pviews(pairs@), 0, eqy_fn(), f_p2()),
        t.2 as int == runs_sum(pviews(pairs@), 0, eqy_fn(), f_p2()),
        t.3 as int == runs_sum(pviews(pairs@), 0, eqy_fn(), f_v2()),
        t.3 >= 0,
{
    let ghost sv = pviews(pairs@);
    let n = pairs.len();
    let mut vu: u64 = 0;
    let mut tied_y_pairs: u64 = 0;
    let mut v1_part_2: u64 = 0;
    let mut v2_part_2: i64 = 0;
    proof {
        lemma_f_vt_bound();
        lemma_f_p2_bound();
        lemma_f_v2_bound();
    }
    if n == 0 {
        return (0, 0, 0, 0);
    }
    let mut consecutive_y_ties: u64 = 1;
    let mut j: usize = 1;
    while j < n
        invariant
            sv == pviews(pairs@),
            n == pairs@.len(),
            n == sv.len(),
            n <= 0x100000,
            0 <= v2_part_2,
            1 <= j <= n,
            1 <= consecutive_y_ties <= j,
            forall|m: int|
                j - consecutive_y_ties <= m < j - 1 ==> eqy(#[trigger] sv[m], sv[m + 1]),
            vu as int == runs_sum(sv, 0, eqy_fn(), f_vt()) - runs_sum(
                sv,
                j - consecutive_y_ties,
                eqy_fn(),
                f_vt(),
            ),
            2 * (tied_y_pairs as int) == runs_sum(sv, 0, eqy_fn(), f_p2()) - runs_sum(
                sv,
                j - consecutive_y_ties,
                eqy_fn(),
                f_p2(),
            ),
            v1_part_2 as int == runs_sum(sv, 0, eqy_fn(), f_p2()) - runs_sum(
                sv,
                j - consecutive_y_ties,
                eqy_fn(),
                f_p2(),
            ),
            v2_part_2 as int == runs_sum(sv, 0, eqy_fn(), f_v2()) - runs_sum(
                sv,
                j - consecutive_y_ties,
                eqy_fn(),
                f_v2(),
            ),
        decreases n - j,
    {
        let tie_y = keq_exec(pairs[j - 1].1, pairs[j].1);
        proof {
            assert(sv[j - 1] == pv1(pairs@[j - 1]));
            assert(sv[j as int] == pv1(pairs@[j as int]));
        }
        if tie_y {
            consecutive_y_ties = consecutive_y_ties + 1;
        } else {
            flush_y_run(
                &mut vu,
                &mut tied_y_pairs,
                &mut v1_part_2,
                &mut v2_part_2,
                consecutive_y_ties,
                Ghost(sv),
                Ghost(j as int),
            );
            consecutive_y_ties = 1;
        }
        j = j + 1;
    }
    flush_y_run(
        &mut vu,
        &mut tied_y_pairs,
        &mut v1_part_2,
        &mut v2_part_2,
        consecutive_y_ties,
        Ghost(sv),
        Ghost(n as int),
    );
    proof {
        assert(runs_sum(sv, n as int, eqy_fn(), f_vt()) == 0);
        assert(runs_sum(sv, n as int, eqy_fn(), f_p2()) == 0);
        assert(runs_sum(sv, n as int, eqy_fn(), f_v2()) == 0);
    }
    (vu, tied_y_pairs, v1_part_2, v2_part_2)
}

/// Re-tags a sorted sequence with its own positions, for the second sort.
pub open spec fn retag(s: Seq<TaggedPair>) -> Seq<TaggedPair> {
    Seq::new(s.len(), |i: int| (s[i].0, s[i].1, i))
}

/// The first sort's order is strict: it chains and never holds both ways.
proof fn lemma_plt_props()
    ensures
        sorting::transitive_by(plt_fn()),
        sorting::asymmetric(plt_fn()),
{
}

/// The second sort's order is strict: it chains and never holds both ways.
proof fn lemma_ylt_props()
    ensures
        sorting::transitive_by(ylt_fn()),
        sorting::asymmetric(ylt_fn()),
{
}

/// The integer counts that tau-b and its significance are computed from.
pub struct TauCounts {
    /// The number of sample pairs.
    pub n: usize,
    /// Variance term over the x-tied groups: Σ g(g−1)(2g+5).
    pub vt: u64,
    /// Variance term over the y-tied groups.
    pub vu: u64,
    /// Pairs tied in x: Σ g(g−1)/2.
    pub tied_x_pairs: u64,
    /// Pairs tied in y.
    pub tied_y_pairs: u64,
    /// Pairs tied in both coordinates.
    pub tied_xy_pairs: u64,
    /// First-moment part over the x-tied groups: Σ g(g−1).
    pub v1_part_1: u64,
    /// First-moment part over the y-tied groups.
    pub v1_part_2: u64,
    /// Third-moment part over the x-tied groups: Σ g(g−1)(g−2).
    pub v2_part_1: i64,
    /// Third-moment part over the y-tied groups.
    pub v2_part_2: i64,
    /// Discordances: merge-sort swaps, equal to the number of position
    /// pairs of the x-sorted sequence whose y values read out of order.
    pub swaps: u64,
}

/// Computes every integer ingredient of the tie-corrected Kendall rank
/// correlation for two equally long sample vectors: sorts the pairs by x
/// (ties by y), walks the tied runs into the x-side accumulators, re-sorts
/// by y with the swap-counting merge sort, and walks the y-tied runs.
#[verifier::rlimit(50)]
pub fn tau_b_counts(x: &Vec<u64>, y: &Vec<u64>) -> (t: TauCounts)
    requires
        x@.len() == y@.len(),
        x@.len() <= 0x100000,
    ensures
        ({
            let s = isort_by(ptag(zip_pairs(x@, y@)), plt_fn());
            let s2 = isort_by(retag(s), ylt_fn());
            &&& t.n == x@.len()
            &&& t.vt as int == runs_sum(s, 0, eqx_fn(), f_vt())
            &&& 2 * (t.tied_x_pairs as int) == runs_sum(s, 0, eqx_fn(), f_p2())
            &&& 2 * (t.tied_xy_pairs as int) == runs_sum(s, 0, eqxy_fn(), f_p2())
            &&& t.v1_part_1 as int == runs_sum(s, 0, eqx_fn(), f_p2())
            &&& t.v2_part_1 as int == runs_sum(s, 0, eqx_fn(), f_v2())
            &&& t.v2_part_1 >= 0
            &&& t.swaps as int == inv_y(retag(s))
            &&& t.vu as int == runs_sum(s2, 0, eqy_fn(), f_vt())
            &&& 2 * (t.tied_y_pairs as int) == runs_sum(s2, 0, eqy_fn(), f_p2())
            &&& t.v1_part_2 as int == runs_sum(s2, 0, eqy_fn(), f_p2())
            &&& t.v2_part_2 as int == runs_sum(s2, 0, eqy_fn(), f_v2())
            &&& t.v2_part_2 >= 0
        }),
{
    broadcast use vstd::multiset::group_multiset_axioms;

    let n = x.len();
    let ghost tagged0 = ptag(zip_pairs(x@, y@));

    // Pair the two vectors, tagging each pair with its position.
    let mut pairs: Vec<TaggedPairX> = Vec::new();
    let mut i: usize = 0;
    while i < n
        invariant
            0 <= i <= n,
            n == x@.len(),
            n == y@.len(),
            pairs@.len() == i,
            tagged0 == ptag(zip_pairs(x@, y@)),
            tagged0.len() == n,
            pviews(pairs@) == tagged0.subrange(0, i as int),
        decreases n - i,
    {
        let ghost pre = pairs@;
        pairs.push((x[i], y[i], i));
        proof {
            lemma_pviews_push(pre, (x@[i as int], y@[i as int], i));
            assert(tagged0[i as int] == (x@[i as int], y@[i as int], i as int));
            assert(pviews(pairs@) =~= tagged0.subrange(0, i + 1));
        }
        i = i + 1;
    }
    proof {
        assert(pviews(pairs@) =~= tagged0);
        assert forall|p: int, q: int|
            #![trigger pviews(pairs@)[p], pviews(pairs@)[q]]
            0 <= p < q < pairs@.len() implies pviews(pairs@)[p].2 != pviews(pairs@)[q].2 by {
            assert(pviews(pairs@)[p] == tagged0[p]);
            assert(pviews(pairs@)[q] == tagged0[q]);
        }
    }

    // First sort: by x, ties by y, then tag.
    let sorted_x = psort_lex(pairs);
    let ghost s = isort_by(tagged0, plt_fn());
    proof {
        lemma_plt_props();
        assert(sorting::pairwise_comparable(tagged0, plt_fn())) by {
            assert forall|p: int, q: int|
                #![trigger tagged0[p], tagged0[q]]
                0 <= p < q < tagged0.len() implies plt_fn()(tagged0[p], tagged0[q]) || plt_fn()(
                tagged0[q],
                tagged0[p],
            ) by {
                assert(tagged0[p].2 == p && tagged0[q].2 == q);
            }
        }
        sorting::lemma_isort_by(tagged0, plt_fn());
        sorting::lemma_strict_sorted_unique_by(pviews(sorted_x@), s, plt_fn());
        assert(pviews(sorted_x@) == s);
    }

    // Tied-run statistics in x order.
    let (vt, tied_x_pairs, tied_xy_pairs, v1_part_1, v2_part_1) = x_tie_stats(&sorted_x);

    // Re-tag in x-sorted order for the stable second sort.
    let mut retagged: Vec<TaggedPairX> = Vec::new();
    let mut j: usize = 0;
    while j < n
        invariant
            0 <= j <= n,
            n == s.len(),
            sorted_x@.len() == n,
            pviews(sorted_x@) == s,
            retagged@.len() == j,
            pviews(retagged@) == retag(s).subrange(0, j as int),
        decreases n - j,
    {
        let ghost pre = retagged@;
        let p = sorted_x[j];
        retagged.push((p.0, p.1, j));
        proof {
            lemma_pviews_push(pre, (p.0, p.1, j));
            assert(pviews(sorted_x@)[j as int] == pv1(sorted_x@[j as int]));
            assert(retag(s)[j as int] == (s[j as int].0, s[j as int].1, j as int));
            assert(pviews(retagged@) =~= retag(s).subrange(0, j + 1));
        }
        j = j + 1;
    }
    proof {
        assert(pviews(retagged@) =~= retag(s));
    }

    // Second sort: by y, counting the discordant swaps.
    let (sorted_y, swaps) = psort_y(retagged, Ghost(0));
    let ghost s2 = isort_by(retag(s), ylt_fn());
    proof {
        lemma_ylt_props();
        assert(sorting::pairwise_comparable(retag(s), ylt_fn())) by {
            assert forall|p: int, q: int|
                #![trigger retag(s)[p], retag(s)[q]]
                0 <= p < q < retag(s).len() implies ylt_fn()(retag(s)[p], retag(s)[q]) || ylt_fn()(
                retag(s)[q],
                retag(s)[p],
            ) by {
                assert(retag(s)[p].2 == p && retag(s)[q].2 == q);
            }
        }
        sorting::lemma_isort_by(retag(s), ylt_fn());
        sorting::lemma_strict_sorted_unique_by(pviews(sorted_y@), s2, ylt_fn());
        assert(pviews(sorted_y@) == s2);
    }

    // Tied-run statistics in y order.
    let (vu, tied_y_pairs, v1_part_2, v2_part_2) = y_tie_stats(&sorted_y);

    TauCounts {
        n,
        vt,
        vu,
        tied_x_pairs,
        tied_y_pairs,
        tied_xy_pairs,
        v1_part_1,
        v1_part_2,
        v2_part_1,
        v2_part_2,
        swaps,
    }
}

} // verus!
