//! Sorting theory shared by the engine and the correlation kernels: stable
//! sorting under a strict order, defined by insertion at the spec level, with
//! the uniqueness lemma that lets any sorted, contents-preserving procedure —
//! whatever its shape — be proved equal to it.

use vstd::prelude::*;

verus! {

broadcast use vstd::seq_lib::group_to_multiset_ensures;

/// The sequence ascends strictly under `lt`.
pub open spec fn strictly_sorted_by<T>(s: Seq<T>, lt: spec_fn(T, T) -> bool) -> bool {
    forall|i: int, j: int|
        #![trigger s[i], s[j]]
        0 <= i < j < s.len() ==> lt(s[i], s[j])
}

/// `lt` chains: anything below `b` is below anything above `b`.
pub open spec fn transitive_by<T>(lt: spec_fn(T, T) -> bool) -> bool {
    forall|a: T, b: T, c: T| #[trigger] lt(a, b) && #[trigger] lt(b, c) ==> lt(a, c)
}

/// `lt` never holds both ways.
pub open spec fn asymmetric<T>(lt: spec_fn(T, T) -> bool) -> bool {
    forall|a: T, b: T| #[trigger] lt(a, b) ==> !lt(b, a)
}

/// Any two entries of the sequence are strictly ordered one way or the
/// other.
pub open spec fn pairwise_comparable<T>(s: Seq<T>, lt: spec_fn(T, T) -> bool) -> bool {
    forall|i: int, j: int|
        #![trigger s[i], s[j]]
        0 <= i < j < s.len() ==> lt(s[i], s[j]) || lt(s[j], s[i])
}

/// Inserts `x` in front of the first entry it precedes.
pub open spec fn insert_sorted_by<T>(x: T, s: Seq<T>, lt: spec_fn(T, T) -> bool) -> Seq<T>
    decreases s.len(),
{
    if s.len() == 0 {
        seq![x]
    } else if lt(s[0], x) {
        seq![s[0]] + insert_sorted_by(x, s.drop_first(), lt)
    } else {
        seq![x] + s
    }
}

/// The stable sort of a sequence under `lt`: each entry inserted, in input
/// order, into the sorted rest.
pub open spec fn isort_by<T>(s: Seq<T>, lt: spec_fn(T, T) -> bool) -> Seq<T>
    decreases s.len(),
{
    if s.len() == 0 {
        Seq::empty()
    } else {
        insert_sorted_by(s[0], isort_by(s.drop_first(), lt), lt)
    }
}

/// Inserting into a strictly sorted sequence of entries comparable with the
/// inserted one keeps it strictly sorted and adds the entry to the contents.
pub proof fn lemma_insert_sorted_by<T>(x: T, s: Seq<T>, lt: spec_fn(T, T) -> bool)
    requires
        transitive_by(lt),
        strictly_sorted_by(s, lt),
        forall|i: int| 0 <= i < s.len() ==> lt(#[trigger] s[i], x) || lt(x, s[i]),
    ensures
        strictly_sorted_by(insert_sorted_by(x, s, lt), lt),
        insert_sorted_by(x, s, lt).to_multiset() =~= s.to_multiset().insert(x),
        insert_sorted_by(x, s, lt).len() == s.len() + 1,
        forall|i: int|
            0 <= i < insert_sorted_by(x, s, lt).len() ==> #[trigger] insert_sorted_by(
                x,
                s,
                lt,
            )[i] == x || s.contains(insert_sorted_by(x, s, lt)[i]),
    decreases s.len(),
{
    broadcast use vstd::multiset::group_multiset_axioms;

    let res = insert_sorted_by(x, s, lt);
    if s.len() == 0 {
        assert(res =~= Seq::empty().push(x));
    } else if lt(s[0], x) {
        let rest = s.drop_first();
        lemma_insert_sorted_by(x, rest, lt);
        let sub = insert_sorted_by(x, rest, lt);
        assert(res =~= Seq::empty().push(s[0]) + sub);
        vstd::seq_lib::lemma_multiset_commutative(Seq::empty().push(s[0]), sub);
        assert(s =~= Seq::empty().push(s[0]) + rest);
        vstd::seq_lib::lemma_multiset_commutative(Seq::empty().push(s[0]), rest);
        assert(res.to_multiset() =~= s.to_multiset().insert(x));
        assert forall|i: int| 0 <= i < res.len() implies res[i] == x || s.contains(res[i]) by {
            if i > 0 {
                assert(res[i] == sub[i - 1]);
                if sub[i - 1] != x {
                    assert(rest.contains(sub[i - 1]));
                    let m = choose|m: int| 0 <= m < rest.len() && rest[m] == sub[i - 1];
                    assert(s[m + 1] == rest[m]);
                }
            } else {
                assert(s.contains(s[0]));
            }
        }
        assert forall|i: int, j: int|
            #![trigger res[i], res[j]]
            0 <= i < j < res.len() implies lt(res[i], res[j]) by {
            if i == 0 {
                let y = res[j];
                if y == x {
                    assert(lt(s[0], x));
                } else {
                    assert(y == sub[j - 1]);
                    assert(rest.contains(y));
                    let m = choose|m: int| 0 <= m < rest.len() && rest[m] == y;
                    assert(s[m + 1] == y);
                    assert(lt(s[0], s[m + 1]));
                }
            } else {
                assert(res[i] == sub[i - 1] && res[j] == sub[j - 1]);
            }
        }
    } else {
        assert(res =~= Seq::empty().push(x) + s);
        vstd::seq_lib::lemma_multiset_commutative(Seq::empty().push(x), s);
        assert(res.to_multiset() =~= s.to_multiset().insert(x));
        assert forall|i: int, j: int|
            #![trigger res[i], res[j]]
            0 <= i < j < res.len() implies lt(res[i], res[j]) by {
            if i == 0 && j == 1 {
                assert(res[1] == s[0]);
                assert(lt(x, s[0]));
            } else if i == 0 {
                assert(res[j] == s[j - 1]);
                assert(lt(s[0], s[j - 1]));
                assert(lt(x, s[0]));
            } else {
                assert(res[i] == s[i - 1] && res[j] == s[j - 1]);
            }
        }
    }
}

/// The stable sort of a pairwise comparable sequence is strictly sorted and
/// keeps exactly its contents.
pub proof fn lemma_isort_by<T>(s: Seq<T>, lt: spec_fn(T, T) -> bool)
    requires
        transitive_by(lt),
        pairwise_comparable(s, lt),
    ensures
        strictly_sorted_by(isort_by(s, lt), lt),
        isort_by(s, lt).to_multiset() =~= s.to_multiset(),
        isort_by(s, lt).len() == s.len(),
        forall|i: int| 0 <= i < isort_by(s, lt).len() ==> s.contains(#[trigger] isort_by(s, lt)[i]),
    decreases s.len(),
{
    broadcast use vstd::multiset::group_multiset_axioms;

    if s.len() > 0 {
        let rest = s.drop_first();
        assert(pairwise_comparable(rest, lt)) by {
            assert forall|i: int, j: int|
                #![trigger rest[i], rest[j]]
                0 <= i < j < rest.len() implies lt(rest[i], rest[j]) || lt(rest[j], rest[i]) by {
                assert(rest[i] == s[i + 1] && rest[j] == s[j + 1]);
            }
        }
        lemma_isort_by(rest, lt);
        let sub = isort_by(rest, lt);
        assert forall|i: int| 0 <= i < sub.len() implies lt(#[trigger] sub[i], s[0]) || lt(
            s[0],
            sub[i],
        ) by {
            assert(rest.contains(sub[i]));
            let m = choose|m: int| 0 <= m < rest.len() && rest[m] == sub[i];
            assert(s[m + 1] == rest[m]);
        }
        lemma_insert_sorted_by(s[0], sub, lt);
        assert(s =~= Seq::empty().push(s[0]) + rest);
        vstd::seq_lib::lemma_multiset_commutative(Seq::empty().push(s[0]), rest);
        assert forall|i: int| 0 <= i < isort_by(s, lt).len() implies s.contains(
            #[trigger] isort_by(s, lt)[i],
        ) by {
            let y = isort_by(s, lt)[i];
            if y != s[0] {
                assert(sub.contains(y) || y == s[0]);
                if sub.contains(y) {
                    let m = choose|m: int| 0 <= m < sub.len() && sub[m] == y;
                    assert(rest.contains(sub[m]));
                    let m2 = choose|m2: int| 0 <= m2 < rest.len() && rest[m2] == y;
                    assert(s[m2 + 1] == y);
                }
            } else {
                assert(s.contains(s[0]));
            }
        }
    }
}

/// Two strictly sorted sequences with the same contents are the same
/// sequence: a strict order admits one sorted arrangement only.
pub proof fn lemma_strict_sorted_unique_by<T>(a: Seq<T>, b: Seq<T>, lt: spec_fn(T, T) -> bool)
    requires
        strictly_sorted_by(a, lt),
        strictly_sorted_by(b, lt),
        asymmetric(lt),
        a.to_multiset() == b.to_multiset(),
    ensures
        a =~= b,
    decreases a.len(),
{
    broadcast use vstd::multiset::group_multiset_axioms;

    if a.len() == 0 {
        assert(b.to_multiset().len() == 0);
    } else {
        assert(a.to_multiset().contains(a[0]));
        assert(b.to_multiset().contains(a[0]));
        assert(b.len() > 0);
        assert(a.to_multiset().contains(b[0]));
        let i = choose|i: int| 0 <= i < a.len() && #[trigger] a[i] == b[0];
        let j = choose|j: int| 0 <= j < b.len() && #[trigger] b[j] == a[0];
        if i > 0 && j > 0 {
            assert(lt(a[0], a[i]));
            assert(lt(b[0], b[j]));
            assert(false);
        }
        assert(a[0] == b[0]);
        assert(a.drop_first() =~= a.remove(0));
        assert(b.drop_first() =~= b.remove(0));
        assert(a.remove(0).to_multiset() =~= a.to_multiset().remove(a[0]));
        assert(b.remove(0).to_multiset() =~= b.to_multiset().remove(b[0]));
        assert(strictly_sorted_by(a.drop_first(), lt)) by {
            assert forall|p: int, q: int|
                #![trigger a.drop_first()[p], a.drop_first()[q]]
                0 <= p < q < a.drop_first().len() implies lt(a.drop_first()[p], a.drop_first()[q]) by {
                assert(a.drop_first()[p] == a[p + 1] && a.drop_first()[q] == a[q + 1]);
            }
        }
        assert(strictly_sorted_by(b.drop_first(), lt)) by {
            assert forall|p: int, q: int|
                #![trigger b.drop_first()[p], b.drop_first()[q]]
                0 <= p < q < b.drop_first().len() implies lt(b.drop_first()[p], b.drop_first()[q]) by {
                assert(b.drop_first()[p] == b[p + 1] && b.drop_first()[q] == b[q + 1]);
            }
        }
        lemma_strict_sorted_unique_by(a.drop_first(), b.drop_first(), lt);
        assert(a =~= Seq::empty().push(a[0]) + a.drop_first());
        assert(b =~= Seq::empty().push(b[0]) + b.drop_first());
    }
}

} // verus!
