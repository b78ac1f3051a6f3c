//! The external sort-merge engine.
//!
//! Converts a stream of result records into a globally sorted sequence using
//! a bounded in-memory buffer: records are buffered up to the configured
//! budget, each full buffer is sorted and set aside as one sorted segment,
//! and the segments are then merged, always emitting the smallest unread
//! head. The order is total: records compare by the selected key and ties by
//! their position in the input, so the engine's output is the unique stable
//! sort of its input, whatever the buffer budget — the defining round-trip
//! property of external sorting.

use crate::bits;
use crate::correlation::{views, CorResult, CorResultV};
use crate::sorting;
use vstd::multiset::Multiset;
use vstd::prelude::*;

verus! {

broadcast use vstd::seq_lib::group_to_multiset_ensures;

/// The two orders the pipeline sorts by, both descending: p-value for the
/// rank-dependent adjustment, absolute statistic for top-N truncation.
#[derive(Clone, Copy, Debug, PartialEq, Eq, Structural)]
pub enum SortKey {
    PValueDescending,
    AbsCorrelationDescending,
}

/// The bit pattern held by an optional field; a missing field reads as zero.
pub open spec fn opt_bits(o: Option<u64>) -> u64 {
    match o {
        Some(v) => v,
        None => 0,
    }
}

/// A record's rank under the selected key: the negated order key of the
/// compared value, so that ascending rank is descending value.
pub open spec fn rec_key(r: CorResultV, k: SortKey) -> int {
    match k {
        SortKey::PValueDescending => -bits::fkey(opt_bits(r.p_value)),
        SortKey::AbsCorrelationDescending => -bits::fkey(opt_bits(r.correlation) & bits::MAG_MASK),
    }
}

/// A record image tagged with its position in the input stream.
pub type TaggedV = (CorResultV, int);

/// The strict total order of the engine: by rank, ties by input position.
pub open spec fn tagged_lt(a: TaggedV, b: TaggedV, k: SortKey) -> bool {
    rec_key(a.0, k) < rec_key(b.0, k) || (rec_key(a.0, k) == rec_key(b.0, k) && a.1 < b.1)
}

/// The sequence ascends strictly under the engine's order.
pub open spec fn strictly_sorted(s: Seq<TaggedV>, k: SortKey) -> bool {
    forall|i: int, j: int|
        #![trigger s[i], s[j]]
        0 <= i < j < s.len() ==> tagged_lt(s[i], s[j], k)
}

/// No two entries carry the same tag.
pub open spec fn distinct_tags(s: Seq<TaggedV>) -> bool {
    forall|i: int, j: int|
        #![trigger s[i], s[j]]
        0 <= i < j < s.len() ==> s[i].1 != s[j].1
}

/// Tags each record image with its position.
pub open spec fn tag_views(s: Seq<CorResultV>) -> Seq<TaggedV> {
    Seq::new(s.len(), |i: int| (s[i], i))
}

/// Drops the tags again.
pub open spec fn untag(s: Seq<TaggedV>) -> Seq<CorResultV> {
    s.map_values(|p: TaggedV| p.0)
}

/// The images of a tagged record vector.
pub open spec fn tviews(s: Seq<(CorResult, usize)>) -> Seq<TaggedV> {
    s.map_values(|p: (CorResult, usize)| (p.0@, p.1 as int))
}

/// The engine's order as a single relation, for the shared sorting theory.
pub open spec fn tlt(k: SortKey) -> spec_fn(TaggedV, TaggedV) -> bool {
    |a: TaggedV, b: TaggedV| tagged_lt(a, b, k)
}

/// What the engine returns for a given input: the input tagged with
/// positions, stably sorted, with the tags dropped again.
pub open spec fn sort_spec(s: Seq<CorResultV>, k: SortKey) -> Seq<CorResultV> {
    untag(sorting::isort_by(tag_views(s), tlt(k)))
}

/// The two renderings of the engine's order agree.
proof fn lemma_sorted_forms(s: Seq<TaggedV>, k: SortKey)
    ensures
        strictly_sorted(s, k) == sorting::strictly_sorted_by(s, tlt(k)),
        sorting::asymmetric(tlt(k)),
        sorting::transitive_by(tlt(k)),
{
}

/// A distinctly tagged sequence is pairwise comparable under the engine's
/// order.
proof fn lemma_distinct_comparable(s: Seq<TaggedV>, k: SortKey)
    requires
        distinct_tags(s),
    ensures
        sorting::pairwise_comparable(s, tlt(k)),
{
}

/// What the engine asks of its items: a total rank per sort key, and a
/// comparison that decides it.
pub trait Sortable: Sized {
    /// The item's rank under the selected key; items sort by ascending rank.
    spec fn sort_rank(&self, key: SortKey) -> int;

    /// Decides whether `self` ranks at or before `other`.
    fn le_by(&self, other: &Self, key: SortKey) -> (r: bool)
        ensures
            r == (self.sort_rank(key) <= other.sort_rank(key)),
    ;
}

impl Sortable for CorResult {
    open spec fn sort_rank(&self, key: SortKey) -> int {
        rec_key(self@, key)
    }

    fn le_by(&self, other: &Self, key: SortKey) -> (r: bool) {
        match key {
            SortKey::PValueDescending => {
                let ps = match &self.p_value {
                    Some(v) => *v,
                    None => 0,
                };
                let po = match &other.p_value {
                    Some(v) => *v,
                    None => 0,
                };
                bits::le_bits_exec(po, ps)
            }
            SortKey::AbsCorrelationDescending => {
                let cs = match &self.correlation {
                    Some(v) => *v,
                    None => 0,
                };
                let co = match &other.correlation {
                    Some(v) => *v,
                    None => 0,
                };
                bits::le_bits_exec(bits::abs_bits(co), bits::abs_bits(cs))
            }
        }
    }
}

/// The image of one tagged record.
pub open spec fn tview1(p: (CorResult, usize)) -> TaggedV {
    (p.0@, p.1 as int)
}

/// Decides the engine's strict order between two tagged records.
fn lt_tagged_exec(a: &(CorResult, usize), b: &(CorResult, usize), key: SortKey) -> (r: bool)
    ensures
        r == tagged_lt(tview1(*a), tview1(*b), key),
{
    if a.0.le_by(&b.0, key) {
        if b.0.le_by(&a.0, key) {
            a.1 < b.1
        } else {
            true
        }
    } else {
        false
    }
}

/// Appending a tagged record appends its image.
proof fn lemma_tviews_push(s: Seq<(CorResult, usize)>, x: (CorResult, usize))
    ensures
        tviews(s.push(x)) =~= tviews(s).push(tview1(x)),
{
}

/// Removing the head of a tagged vector drops the head image.
proof fn lemma_tviews_remove0(s: Seq<(CorResult, usize)>)
    requires
        s.len() > 0,
    ensures
        tviews(s.remove(0)) =~= tviews(s).remove(0),
        tviews(s).remove(0) =~= tviews(s).drop_first(),
{
}

/// A strictly sorted sequence stays strictly sorted without its head.
proof fn lemma_strict_sorted_remove0(s: Seq<TaggedV>, k: SortKey)
    requires
        strictly_sorted(s, k),
        s.len() > 0,
    ensures
        strictly_sorted(s.remove(0), k),
{
    assert forall|i: int, j: int|
        #![trigger s.remove(0)[i], s.remove(0)[j]]
        0 <= i < j < s.remove(0).len() implies tagged_lt(s.remove(0)[i], s.remove(0)[j], k) by {
        assert(s.remove(0)[i] == s[i + 1] && s.remove(0)[j] == s[j + 1]);
    }
}

/// Merges two strictly sorted runs with disjoint tags into one strictly
/// sorted run holding the contents of both.
fn merge_tagged(
    a: Vec<(CorResult, usize)>,
    b: Vec<(CorResult, usize)>,
    key: SortKey,
) -> (r: Vec<(CorResult, usize)>)
    requires
        strictly_sorted(tviews(a@), key),
        strictly_sorted(tviews(b@), key),
        forall|i: int, j: int|
            #![trigger tviews(a@)[i], tviews(b@)[j]]
            0 <= i < a@.len() && 0 <= j < b@.len() ==> tviews(a@)[i].1 != tviews(b@)[j].1,
    ensures
        strictly_sorted(tviews(r@), key),
        tviews(r@).to_multiset() == tviews(a@).to_multiset().add(tviews(b@).to_multiset()),
        r@.len() == a@.len() + b@.len(),
{
    broadcast use vstd::multiset::group_multiset_axioms;

    let ghost ms0 = tviews(a@).to_multiset().add(tviews(b@).to_multiset());
    let ghost total_len = a@.len() + b@.len();
    let mut a = a;
    let mut b = b;
    let mut out: Vec<(CorResult, usize)> = Vec::new();
    while a.len() > 0 || b.len() > 0
        invariant
            strictly_sorted(tviews(a@), key),
            strictly_sorted(tviews(b@), key),
            strictly_sorted(tviews(out@), key),
            forall|i: int, j: int|
                #![trigger tviews(a@)[i], tviews(b@)[j]]
                0 <= i < a@.len() && 0 <= j < b@.len() ==> tviews(a@)[i].1 != tviews(b@)[j].1,
            forall|i: int, j: int|
                #![trigger tviews(out@)[i], tviews(a@)[j]]
                0 <= i < out@.len() && 0 <= j < a@.len() ==> tagged_lt(
                    tviews(out@)[i],
                    tviews(a@)[j],
                    key,
                ),
            forall|i: int, j: int|
                #![trigger tviews(out@)[i], tviews(b@)[j]]
                0 <= i < out@.len() && 0 <= j < b@.len() ==> tagged_lt(
                    tviews(out@)[i],
                    tviews(b@)[j],
                    key,
                ),
            tviews(out@).to_multiset().add(tviews(a@).to_multiset()).add(
                tviews(b@).to_multiset(),
            ) == ms0,
            out@.len() + a@.len() + b@.len() == total_len,
        decreases a@.len() + b@.len(),
    {
        let ghost outseq = out@;
        let ghost aseq = a@;
        let ghost bseq = b@;
        let take_a = if b.len() == 0 {
            true
        } else if a.len() == 0 {
            false
        } else {
            !lt_tagged_exec(&b[0], &a[0], key)
        };
        if take_a {
            let x = a.remove(0);
            proof {
                let xv = tview1(aseq[0]);
                assert(tviews(aseq)[0] == xv);
                lemma_tviews_remove0(aseq);
                lemma_strict_sorted_remove0(tviews(aseq), key);
                assert(bseq.len() > 0 ==> tagged_lt(xv, tviews(bseq)[0], key)) by {
                    if bseq.len() > 0 {
                        assert(tviews(aseq)[0].1 != tviews(bseq)[0].1);
                    }
                }
                lemma_tviews_push(outseq, aseq[0]);
            }
            out.push(x);
            proof {
                let xv = tview1(aseq[0]);
                assert(tviews(out@) =~= tviews(outseq).push(xv));
                assert(tviews(a@) =~= tviews(aseq).remove(0));
                assert(tviews(aseq).remove(0).to_multiset() =~= tviews(aseq).to_multiset().remove(
                    xv,
                ));
                assert(tviews(aseq).to_multiset().contains(xv)) by {
                    assert(tviews(aseq)[0] == xv);
                    assert(tviews(aseq).contains(xv));
                }
                assert(tviews(out@).to_multiset().add(tviews(a@).to_multiset()).add(
                    tviews(b@).to_multiset(),
                ) =~= ms0);
                assert forall|i: int, j: int|
                    #![trigger tviews(out@)[i], tviews(b@)[j]]
                    0 <= i < out@.len() && 0 <= j < b@.len() implies tagged_lt(
                    tviews(out@)[i],
                    tviews(b@)[j],
                    key,
                ) by {
                    if i < outseq.len() {
                        assert(tviews(out@)[i] == tviews(outseq)[i]);
                    } else {
                        assert(tviews(out@)[i] == xv);
                        assert(tagged_lt(xv, tviews(bseq)[0], key));
                        if j > 0 {
                            assert(tagged_lt(tviews(bseq)[0], tviews(bseq)[j], key));
                        }
                    }
                }
                assert forall|i: int, j: int|
                    #![trigger tviews(out@)[i], tviews(a@)[j]]
                    0 <= i < out@.len() && 0 <= j < a@.len() implies tagged_lt(
                    tviews(out@)[i],
                    tviews(a@)[j],
                    key,
                ) by {
                    assert(tviews(a@)[j] == tviews(aseq)[j + 1]);
                    if i < outseq.len() {
                        assert(tviews(out@)[i] == tviews(outseq)[i]);
                    } else {
                        assert(tviews(out@)[i] == xv);
                        assert(tagged_lt(tviews(aseq)[0], tviews(aseq)[j + 1], key));
                    }
                }
                assert(strictly_sorted(tviews(out@), key)) by {
                    assert forall|i: int, j: int|
                        #![trigger tviews(out@)[i], tviews(out@)[j]]
                        0 <= i < j < out@.len() implies tagged_lt(
                        tviews(out@)[i],
                        tviews(out@)[j],
                        key,
                    ) by {
                        if j < outseq.len() {
                            assert(tviews(out@)[i] == tviews(outseq)[i]);
                            assert(tviews(out@)[j] == tviews(outseq)[j]);
                        } else {
                            assert(tviews(out@)[j] == xv);
                            assert(tviews(out@)[i] == tviews(outseq)[i]);
                            assert(tagged_lt(tviews(outseq)[i], tviews(aseq)[0], key));
                        }
                    }
                }
            }
        } else {
            let x = b.remove(0);
            proof {
                let xv = tview1(bseq[0]);
                assert(tviews(bseq)[0] == xv);
                lemma_tviews_remove0(bseq);
                lemma_strict_sorted_remove0(tviews(bseq), key);
                assert(aseq.len() > 0 ==> tagged_lt(xv, tviews(aseq)[0], key));
                lemma_tviews_push(outseq, bseq[0]);
            }
            out.push(x);
            proof {
                let xv = tview1(bseq[0]);
                assert(tviews(out@) =~= tviews(outseq).push(xv));
                assert(tviews(b@) =~= tviews(bseq).remove(0));
                assert(tviews(bseq).remove(0).to_multiset() =~= tviews(bseq).to_multiset().remove(
                    xv,
                ));
                assert(tviews(bseq).to_multiset().contains(xv)) by {
                    assert(tviews(bseq)[0] == xv);
                    assert(tviews(bseq).contains(xv));
                }
                assert(tviews(out@).to_multiset().add(tviews(a@).to_multiset()).add(
                    tviews(b@).to_multiset(),
                ) =~= ms0);
                assert forall|i: int, j: int|
                    #![trigger tviews(out@)[i], tviews(a@)[j]]
                    0 <= i < out@.len() && 0 <= j < a@.len() implies tagged_lt(
                    tviews(out@)[i],
                    tviews(a@)[j],
                    key,
                ) by {
                    if i < outseq.len() {
                        assert(tviews(out@)[i] == tviews(outseq)[i]);
                    } else {
                        assert(tviews(out@)[i] == xv);
                        assert(tagged_lt(xv, tviews(aseq)[0], key));
                        if j > 0 {
                            assert(tagged_lt(tviews(aseq)[0], tviews(aseq)[j], key));
                        }
                    }
                }
                assert forall|i: int, j: int|
                    #![trigger tviews(out@)[i], tviews(b@)[j]]
                    0 <= i < out@.len() && 0 <= j < b@.len() implies tagged_lt(
                    tviews(out@)[i],
                    tviews(b@)[j],
                    key,
                ) by {
                    assert(tviews(b@)[j] == tviews(bseq)[j + 1]);
                    if i < outseq.len() {
                        assert(tviews(out@)[i] == tviews(outseq)[i]);
                    } else {
                        assert(tviews(out@)[i] == xv);
                        assert(tagged_lt(tviews(bseq)[0], tviews(bseq)[j + 1], key));
                    }
                }
                assert(strictly_sorted(tviews(out@), key)) by {
                    assert forall|i: int, j: int|
                        #![trigger tviews(out@)[i], tviews(out@)[j]]
                        0 <= i < j < out@.len() implies tagged_lt(
                        tviews(out@)[i],
                        tviews(out@)[j],
                        key,
                    ) by {
                        if j < outseq.len() {
                            assert(tviews(out@)[i] == tviews(outseq)[i]);
                            assert(tviews(out@)[j] == tviews(outseq)[j]);
                        } else {
                            assert(tviews(out@)[j] == xv);
                            assert(tviews(out@)[i] == tviews(outseq)[i]);
                            assert(tagged_lt(tviews(outseq)[i], tviews(bseq)[0], key));
                        }
                    }
                }
                assert forall|i: int, j: int|
                    #![trigger tviews(a@)[i], tviews(b@)[j]]
                    0 <= i < a@.len() && 0 <= j < b@.len() implies tviews(a@)[i].1 != tviews(
                    b@,
                )[j].1 by {
                    assert(tviews(b@)[j] == tviews(bseq)[j + 1]);
                }
            }
        }
    }
    out
}

/// Sorts a tagged run by splitting it in half, sorting the halves and
/// merging them.
fn merge_sort_tagged(v: Vec<(CorResult, usize)>, key: SortKey) -> (r: Vec<(CorResult, usize)>)
    requires
        distinct_tags(tviews(v@)),
    ensures
        strictly_sorted(tviews(r@), key),
        tviews(r@).to_multiset() == tviews(v@).to_multiset(),
        r@.len() == v@.len(),
    decreases v@.len(),
{
    broadcast use vstd::multiset::group_multiset_axioms;

    if v.len() <= 1 {
        v
    } else {
        let ghost v0 = v@;
        let mut left = v;
        let mid = left.len() / 2;
        let right = left.split_off(mid);
        proof {
            assert(tviews(left@) =~= tviews(v0).subrange(0, mid as int));
            assert(tviews(right@) =~= tviews(v0).subrange(mid as int, v0.len() as int));
            assert(distinct_tags(tviews(left@)));
            assert(distinct_tags(tviews(right@))) by {
                assert forall|i: int, j: int|
                    #![trigger tviews(right@)[i], tviews(right@)[j]]
                    0 <= i < j < right@.len() implies tviews(right@)[i].1 != tviews(right@)[j].1 by {
                    assert(tviews(right@)[i] == tviews(v0)[i + mid]);
                    assert(tviews(right@)[j] == tviews(v0)[j + mid]);
                }
            }
        }
        let ghost lseq = tviews(left@);
        let ghost rseq = tviews(right@);
        let ls = merge_sort_tagged(left, key);
        let rs = merge_sort_tagged(right, key);
        proof {
            assert forall|i: int, j: int|
                #![trigger tviews(ls@)[i], tviews(rs@)[j]]
                0 <= i < ls@.len() && 0 <= j < rs@.len() implies tviews(ls@)[i].1 != tviews(
                rs@,
            )[j].1 by {
                assert(lseq.to_multiset().contains(tviews(ls@)[i])) by {
                    assert(tviews(ls@).contains(tviews(ls@)[i]));
                }
                assert(rseq.to_multiset().contains(tviews(rs@)[j])) by {
                    assert(tviews(rs@).contains(tviews(rs@)[j]));
                }
                assert(lseq.contains(tviews(ls@)[i]));
                assert(rseq.contains(tviews(rs@)[j]));
                let p = choose|p: int| 0 <= p < lseq.len() && #[trigger] lseq[p] == tviews(ls@)[i];
                let q = choose|q: int| 0 <= q < rseq.len() && #[trigger] rseq[q] == tviews(rs@)[j];
                assert(lseq[p] == tviews(v0)[p]);
                assert(rseq[q] == tviews(v0)[q + mid]);
            }
        }
        let merged = merge_tagged(ls, rs, key);
        proof {
            assert(tviews(v0) =~= lseq + rseq);
            vstd::seq_lib::lemma_multiset_commutative(lseq, rseq);
            assert(tviews(merged@).to_multiset() =~= tviews(v0).to_multiset());
        }
        merged
    }
}

/// The images of a vector of segments.
pub open spec fn seg_views(ss: Seq<Vec<(CorResult, usize)>>) -> Seq<Seq<TaggedV>> {
    ss.map_values(|v: Vec<(CorResult, usize)>| tviews(v@))
}

/// The combined contents of a sequence of segments.
pub open spec fn segs_ms(ss: Seq<Seq<TaggedV>>) -> Multiset<TaggedV>
    decreases ss.len(),
{
    if ss.len() == 0 {
        Multiset::empty()
    } else {
        ss[0].to_multiset().add(segs_ms(ss.drop_first()))
    }
}

/// Appending a segment adds its contents.
proof fn lemma_segs_ms_push(ss: Seq<Seq<TaggedV>>, x: Seq<TaggedV>)
    ensures
        segs_ms(ss.push(x)) == segs_ms(ss).add(x.to_multiset()),
    decreases ss.len(),
{
    broadcast use vstd::multiset::group_multiset_axioms;

    if ss.len() == 0 {
        assert(segs_ms(ss) == Multiset::<TaggedV>::empty());
        assert(ss.push(x).drop_first() =~= Seq::<Seq<TaggedV>>::empty());
        assert(ss.push(x).len() == 1);
        assert(ss.push(x)[0] == x);
        assert(segs_ms(ss.push(x).drop_first()) == Multiset::<TaggedV>::empty());
        assert(segs_ms(ss.push(x)) == x.to_multiset().add(Multiset::<TaggedV>::empty()));
        assert(x.to_multiset().add(Multiset::<TaggedV>::empty()) =~= Multiset::<TaggedV>::empty().add(x.to_multiset()));
        assert(segs_ms(ss.push(x)) =~= segs_ms(ss).add(x.to_multiset()));
    } else {
        assert(ss.push(x).drop_first() =~= ss.drop_first().push(x));
        lemma_segs_ms_push(ss.drop_first(), x);
        assert(ss.push(x)[0] == ss[0]);
        assert(segs_ms(ss.push(x)) == ss[0].to_multiset().add(
            segs_ms(ss.drop_first()).add(x.to_multiset()),
        ));
        assert(ss[0].to_multiset().add(segs_ms(ss.drop_first()).add(x.to_multiset()))
            =~= ss[0].to_multiset().add(segs_ms(ss.drop_first())).add(x.to_multiset()));
    }
}

/// The external sort-merge engine, configured with the number of records it
/// may hold in one in-memory segment.
pub struct ExternalSorter {
    /// The in-memory item budget: records per sorted segment.
    pub segment_size: usize,
}

impl ExternalSorter {
    /// Builds an engine with the given in-memory item budget, which must be
    /// positive.
    pub fn new(segment_size: usize) -> (r: ExternalSorter)
        requires
            segment_size >= 1,
        ensures
            r.segment_size == segment_size,
    {
        ExternalSorter { segment_size }
    }

    /// Sorts the records under the selected key: tags every record with its
    /// input position, buffers up to `segment_size` of them at a time into
    /// sorted segments, merges the segments smallest-head-first, and drops
    /// the tags. The result is the unique stable sort of the input — the
    /// same sequence whatever the budget, and the same a plain in-memory
    /// sort would give.
    #[verifier::loop_isolation(false)]
    pub fn sort(&self, items: Vec<CorResult>, key: SortKey) -> (r: Vec<CorResult>)
        requires
            self.segment_size >= 1,
        ensures
            views(r@) == sort_spec(views(items@), key),
            r@.len() == items@.len(),
    {
        broadcast use vstd::multiset::group_multiset_axioms;

        let ghost orig = views(items@);
        let ghost tagged0 = tag_views(orig);
        let n = items.len();

        // Tag each record with its input position.
        let mut items = items;
        let mut tagged: Vec<(CorResult, usize)> = Vec::new();
        while items.len() > 0
            invariant
                tagged@.len() + items@.len() == n,
                n == orig.len(),
                tviews(tagged@) == tagged0.subrange(0, tagged@.len() as int),
                views(items@) == orig.subrange(tagged@.len() as int, orig.len() as int),
            decreases items@.len(),
        {
            let ghost tseq = tagged@;
            let ghost iseq = items@;
            let idx = tagged.len();
            let x = items.remove(0);
            tagged.push((x, idx));
            proof {
                lemma_tviews_push(tseq, (x, idx));
                assert(views(iseq)[0] == iseq[0]@);
                assert(x@ == views(iseq)[0]);
                assert(views(iseq)[0] == orig[tseq.len() as int]);
                assert forall|i: int| 0 <= i < tagged@.len() implies tviews(tagged@)[i]
                    == tagged0.subrange(0, tagged@.len() as int)[i] by {
                    if i < tseq.len() {
                        assert(tviews(tagged@)[i] == tviews(tseq)[i]);
                        assert(tviews(tseq)[i] == tagged0.subrange(0, tseq.len() as int)[i]);
                    } else {
                        assert(tviews(tagged@)[i] == tview1((x, idx)));
                        assert(tagged0[i] == (orig[i], i));
                    }
                }
                assert(tviews(tagged@) =~= tagged0.subrange(0, tagged@.len() as int));
                assert forall|i: int| 0 <= i < items@.len() implies views(items@)[i]
                    == orig.subrange(tagged@.len() as int, orig.len() as int)[i] by {
                    assert(items@[i] == iseq[i + 1]);
                    assert(views(iseq)[i + 1] == iseq[i + 1]@);
                    assert(views(iseq)[i + 1] == orig.subrange(
                        tseq.len() as int,
                        orig.len() as int,
                    )[i + 1]);
                }
                assert(views(items@) =~= orig.subrange(tagged@.len() as int, orig.len() as int));
            }
        }
        proof {
            assert(tviews(tagged@) =~= tagged0);
        }

        // Cut into segments of at most `segment_size` records, each sorted
        // in memory.
        let mut segments: Vec<Vec<(CorResult, usize)>> = Vec::new();
        while tagged.len() > 0
            invariant
                self.segment_size >= 1,
                n == orig.len(),
                tviews(tagged@) == tagged0.subrange(
                    n - tagged@.len() as int,
                    n as int,
                ),
                tagged@.len() <= n,
                forall|j: int|
                    0 <= j < seg_views(segments@).len() ==> strictly_sorted(
                        #[trigger] seg_views(segments@)[j],
                        key,
                    ),
                forall|j: int, i: int|
                    #![trigger seg_views(segments@)[j][i]]
                    0 <= j < seg_views(segments@).len() && 0 <= i < seg_views(segments@)[j].len()
                        ==> 0 <= seg_views(segments@)[j][i].1 < n - tagged@.len() as int,
                forall|j1: int, j2: int, i1: int, i2: int|
                    #![trigger seg_views(segments@)[j1][i1], seg_views(segments@)[j2][i2]]
                    0 <= j1 < j2 < seg_views(segments@).len() && 0 <= i1 < seg_views(
                        segments@,
                    )[j1].len() && 0 <= i2 < seg_views(segments@)[j2].len() ==> seg_views(
                        segments@,
                    )[j1][i1].1 < seg_views(segments@)[j2][i2].1,
                segs_ms(seg_views(segments@)).add(tviews(tagged@).to_multiset())
                    == tagged0.to_multiset(),
            decreases tagged@.len(),
        {
            let ghost done = n - tagged@.len() as int;
            let take = if self.segment_size < tagged.len() {
                self.segment_size
            } else {
                tagged.len()
            };
            let ghost pre = tagged@;
            let rest = tagged.split_off(take);
            let ghost chunkseq = tviews(tagged@);
            proof {
                assert forall|i: int| 0 <= i < chunkseq.len() implies chunkseq[i]
                    == tagged0.subrange(done, done + take as int)[i] by {
                    assert(tagged@[i] == pre[i]);
                    assert(tviews(pre)[i] == tagged0.subrange(done, n as int)[i]);
                }
                assert(chunkseq =~= tagged0.subrange(done, done + take as int));
                assert forall|i: int| 0 <= i < chunkseq.len() implies (#[trigger] chunkseq[i]).1
                    == done + i by {
                    assert(chunkseq[i] == tagged0[done + i]);
                }
                assert(distinct_tags(chunkseq));
            }
            let sorted_chunk = merge_sort_tagged(tagged, key);
            proof {
                assert forall|i: int|
                    0 <= i < tviews(sorted_chunk@).len() implies done <= (#[trigger] tviews(
                    sorted_chunk@,
                )[i]).1 < done + take as int by {
                    assert(chunkseq.to_multiset().contains(tviews(sorted_chunk@)[i])) by {
                        assert(tviews(sorted_chunk@).contains(tviews(sorted_chunk@)[i]));
                    }
                    assert(chunkseq.contains(tviews(sorted_chunk@)[i]));
                    let p = choose|p: int|
                        0 <= p < chunkseq.len() && #[trigger] chunkseq[p] == tviews(
                            sorted_chunk@,
                        )[i];
                    assert(chunkseq[p].1 == done + p);
                }
            }
            let ghost segs_before = seg_views(segments@);
            segments.push(sorted_chunk);
            tagged = rest;
            proof {
                assert(seg_views(segments@) =~= segs_before.push(tviews(sorted_chunk@)));
                lemma_segs_ms_push(segs_before, tviews(sorted_chunk@));
                assert forall|i: int| 0 <= i < tagged@.len() implies tviews(tagged@)[i]
                    == tagged0.subrange(done + take as int, n as int)[i] by {
                    assert(tagged@[i] == pre[i + take]);
                    assert(tviews(pre)[i + take] == tagged0.subrange(done, n as int)[i + take]);
                }
                assert(tviews(tagged@) =~= tagged0.subrange(done + take as int, n as int));
                assert(tagged0.subrange(done, n as int) =~= tagged0.subrange(
                    done,
                    done + take as int,
                ) + tagged0.subrange(done + take as int, n as int));
                vstd::seq_lib::lemma_multiset_commutative(
                    tagged0.subrange(done, done + take as int),
                    tagged0.subrange(done + take as int, n as int),
                );
                assert(segs_ms(seg_views(segments@)).add(tviews(tagged@).to_multiset())
                    =~= tagged0.to_multiset());
            }
        }

        // Merge the sorted segments, always emitting the smallest unread
        // head: with the tag ranges ascending across segments, each merge
        // joins two runs with disjoint tags.
        let mut merged: Vec<(CorResult, usize)> = Vec::new();
        while segments.len() > 0
            invariant
                strictly_sorted(tviews(merged@), key),
                forall|j: int|
                    0 <= j < seg_views(segments@).len() ==> strictly_sorted(
                        #[trigger] seg_views(segments@)[j],
                        key,
                    ),
                forall|i: int, j: int, i2: int|
                    #![trigger tviews(merged@)[i], seg_views(segments@)[j][i2]]
                    0 <= i < tviews(merged@).len() && 0 <= j < seg_views(segments@).len() && 0 <= i2
                        < seg_views(segments@)[j].len() ==> tviews(merged@)[i].1 != seg_views(
                        segments@,
                    )[j][i2].1,
                forall|j1: int, j2: int, i1: int, i2: int|
                    #![trigger seg_views(segments@)[j1][i1], seg_views(segments@)[j2][i2]]
                    0 <= j1 < j2 < seg_views(segments@).len() && 0 <= i1 < seg_views(
                        segments@,
                    )[j1].len() && 0 <= i2 < seg_views(segments@)[j2].len() ==> seg_views(
                        segments@,
                    )[j1][i1].1 < seg_views(segments@)[j2][i2].1,
                tviews(merged@).to_multiset().add(segs_ms(seg_views(segments@)))
                    == tagged0.to_multiset(),
            decreases segments@.len(),
        {
            let ghost segs0 = seg_views(segments@);
            let ghost merged0 = tviews(merged@);
            let seg = segments.remove(0);
            proof {
                assert(seg_views(segments@) =~= segs0.drop_first());
                assert(tviews(seg@) == segs0[0]);
                assert forall|i: int, j: int|
                    #![trigger tviews(merged@)[i], tviews(seg@)[j]]
                    0 <= i < merged@.len() && 0 <= j < seg@.len() implies tviews(merged@)[i].1
                    != tviews(seg@)[j].1 by {
                    assert(tviews(merged@)[i] == merged0[i]);
                }
            }
            merged = merge_tagged(merged, seg, key);
            proof {
                assert(tviews(merged@).to_multiset().add(segs_ms(seg_views(segments@)))
                    =~= tagged0.to_multiset());
                assert forall|i: int, j: int, i2: int|
                    #![trigger tviews(merged@)[i], seg_views(segments@)[j][i2]]
                    0 <= i < tviews(merged@).len() && 0 <= j < seg_views(segments@).len() && 0 <= i2
                        < seg_views(segments@)[j].len() implies tviews(merged@)[i].1 != seg_views(
                    segments@,
                )[j][i2].1 by {
                    let x = tviews(merged@)[i];
                    assert(tviews(merged@).contains(x));
                    assert(tviews(merged@).to_multiset().contains(x));
                    assert(merged0.to_multiset().add(segs0[0].to_multiset()).contains(x));
                    if merged0.to_multiset().contains(x) {
                        assert(merged0.contains(x));
                        let p = choose|p: int| 0 <= p < merged0.len() && #[trigger] merged0[p] == x;
                        assert(segs0.drop_first()[j][i2] == segs0[j + 1][i2]);
                    } else {
                        assert(segs0[0].contains(x));
                        let p = choose|p: int|
                            0 <= p < segs0[0].len() && #[trigger] segs0[0][p] == x;
                        assert(segs0.drop_first()[j][i2] == segs0[j + 1][i2]);
                        assert(segs0[0][p].1 < segs0[j + 1][i2].1);
                    }
                }
            }
        }
        proof {
            assert(segs_ms(seg_views(segments@)) =~= Multiset::empty());
            assert(tviews(merged@).to_multiset() =~= tviews(merged@).to_multiset().add(
                Multiset::empty(),
            ));
            assert(tviews(merged@).to_multiset() == tagged0.to_multiset());
            assert(distinct_tags(tagged0));
            lemma_distinct_comparable(tagged0, key);
            sorting::lemma_isort_by(tagged0, tlt(key));
            lemma_sorted_forms(tviews(merged@), key);
            lemma_sorted_forms(sorting::isort_by(tagged0, tlt(key)), key);
            sorting::lemma_strict_sorted_unique_by(
                tviews(merged@),
                sorting::isort_by(tagged0, tlt(key)),
                tlt(key),
            );
        }

        // Drop the tags.
        let ghost sorted_full = sorting::isort_by(tagged0, tlt(key));
        let mut result: Vec<CorResult> = Vec::new();
        while merged.len() > 0
            invariant
                result@.len() + merged@.len() == sorted_full.len(),
                views(result@) == untag(sorted_full).subrange(0, result@.len() as int),
                tviews(merged@) == sorted_full.subrange(
                    result@.len() as int,
                    sorted_full.len() as int,
                ),
            decreases merged@.len(),
        {
            let ghost rseq = result@;
            let ghost mseq = merged@;
            let p = merged.remove(0);
            result.push(p.0);
            proof {
                assert(tviews(mseq)[0] == sorted_full[rseq.len() as int]);
                assert(p.0@ == untag(sorted_full)[rseq.len() as int]);
                assert forall|i: int| 0 <= i < result@.len() implies views(result@)[i]
                    == untag(sorted_full).subrange(0, result@.len() as int)[i] by {
                    if i < rseq.len() {
                        assert(result@[i] == rseq[i]);
                        assert(views(rseq)[i] == untag(sorted_full).subrange(
                            0,
                            rseq.len() as int,
                        )[i]);
                    }
                }
                assert(views(result@) =~= untag(sorted_full).subrange(
                    0,
                    result@.len() as int,
                ));
                assert forall|i: int| 0 <= i < merged@.len() implies tviews(merged@)[i]
                    == sorted_full.subrange(
                    result@.len() as int,
                    sorted_full.len() as int,
                )[i] by {
                    assert(merged@[i] == mseq[i + 1]);
                    assert(tviews(mseq)[i + 1] == sorted_full.subrange(
                        rseq.len() as int,
                        sorted_full.len() as int,
                    )[i + 1]);
                }
                assert(tviews(merged@) =~= sorted_full.subrange(
                    result@.len() as int,
                    sorted_full.len() as int,
                ));
            }
        }
        proof {
            assert(views(result@) =~= untag(sorted_full));
        }
        result
    }
}

/// Reads one sorted segment record by record, front to back.
pub struct ChunkReader {
    items: Vec<CorResult>,
}

impl ChunkReader {
    /// What is still unread.
    pub closed spec fn remaining(&self) -> Seq<CorResultV> {
        views(self.items@)
    }

    /// Wraps a segment for reading.
    pub fn new(items: Vec<CorResult>) -> (r: ChunkReader)
        ensures
            r.remaining() == views(items@),
    {
        ChunkReader { items }
    }

    /// Hands out the next unread record, or nothing once the segment is
    /// exhausted.
    pub fn next(&mut self) -> (r: Option<CorResult>)
        ensures
            old(self).remaining().len() == 0 ==> r is None && final(self).remaining()
                == old(self).remaining(),
            old(self).remaining().len() > 0 ==> r is Some && r->0@ == old(self).remaining()[0]
                && final(self).remaining() == old(self).remaining().drop_first(),
    {
        if self.items.len() > 0 {
            let ghost pre = self.items@;
            let x = self.items.remove(0);
            proof {
                assert(views(self.items@) =~= views(pre).drop_first());
            }
            Some(x)
        } else {
            None
        }
    }
}

/// What the engine guarantees of its canonical order, for callers that
/// reason about a sorted result: the sorted sequence is a rearrangement of
/// the input (each entry drawn from it, and every input entry placed
/// somewhere), ascending in rank under the selected key.
pub proof fn lemma_sort_spec_ensures(s: Seq<CorResultV>, k: SortKey)
    ensures
        sort_spec(s, k).len() == s.len(),
        forall|i: int| 0 <= i < s.len() ==> s.contains(#[trigger] sort_spec(s, k)[i]),
        forall|p: int|
            #![trigger s[p]]
            0 <= p < s.len() ==> exists|i: int|
                0 <= i < s.len() && #[trigger] sort_spec(s, k)[i] == s[p],
        forall|i: int, j: int|
            #![trigger sort_spec(s, k)[i], sort_spec(s, k)[j]]
            0 <= i < j < s.len() ==> rec_key(sort_spec(s, k)[i], k) <= rec_key(
                sort_spec(s, k)[j],
                k,
            ),
{
    broadcast use vstd::multiset::group_multiset_axioms;
    broadcast use vstd::seq_lib::group_to_multiset_ensures;

    let t0 = tag_views(s);
    assert(distinct_tags(t0));
    lemma_distinct_comparable(t0, k);
    sorting::lemma_isort_by(t0, tlt(k));
    lemma_sorted_forms(sorting::isort_by(t0, tlt(k)), k);
    let sorted = sorting::isort_by(t0, tlt(k));
    assert forall|i: int| 0 <= i < s.len() implies s.contains(#[trigger] sort_spec(s, k)[i]) by {
        assert(t0.contains(sorted[i]));
        let p = choose|p: int| 0 <= p < t0.len() && #[trigger] t0[p] == sorted[i];
        assert(t0[p].0 == s[p]);
        assert(sort_spec(s, k)[i] == sorted[i].0);
    }
    assert forall|p: int| #![trigger s[p]] 0 <= p < s.len() implies exists|i: int|
        0 <= i < s.len() && #[trigger] sort_spec(s, k)[i] == s[p] by {
        assert(t0[p] == (s[p], p));
        assert(t0.contains(t0[p]));
        assert(t0.to_multiset().contains(t0[p]));
        assert(sorted.to_multiset().contains(t0[p]));
        assert(sorted.contains(t0[p]));
        let i = choose|i: int| 0 <= i < sorted.len() && #[trigger] sorted[i] == t0[p];
        assert(sort_spec(s, k)[i] == s[p]);
    }
    assert forall|i: int, j: int|
        #![trigger sort_spec(s, k)[i], sort_spec(s, k)[j]]
        0 <= i < j < s.len() implies rec_key(sort_spec(s, k)[i], k) <= rec_key(
        sort_spec(s, k)[j],
        k,
    ) by {
        assert(tagged_lt(sorted[i], sorted[j], k));
        assert(sort_spec(s, k)[i] == sorted[i].0);
        assert(sort_spec(s, k)[j] == sorted[j].0);
    }
}

} // verus!
