//! Average ranking with ties, the heart of the Spearman correlation: each
//! entry's rank is the mean of the positions its tied group would occupy in
//! ascending order. That mean is determined by two counts — how many
//! entries order strictly below the entry, and how many tie with it — and
//! those counts are what this module computes: the mean rank is
//! `below + (ties + 1) / 2`.

use crate::bits::{self, fkey};
use vstd::prelude::*;

verus! {

/// How many entries order strictly below `b`.
pub open spec fn count_below(v: Seq<u64>, b: u64) -> nat
    decreases v.len(),
{
    if v.len() == 0 {
        0
    } else {
        count_below(v.drop_last(), b) + if fkey(v.last()) < fkey(b) {
            1nat
        } else {
            0nat
        }
    }
}

/// How many entries tie with `b`, itself included when it is drawn from
/// the sequence.
pub open spec fn count_ties(v: Seq<u64>, b: u64) -> nat
    decreases v.len(),
{
    if v.len() == 0 {
        0
    } else {
        count_ties(v.drop_last(), b) + if fkey(v.last()) == fkey(b) {
            1nat
        } else {
            0nat
        }
    }
}

/// For every entry, the two counts its mean rank is made of: entries
/// strictly below it, and entries tied with it.
#[verifier::loop_isolation(false)]
pub fn rank_vector_counts(v: &Vec<u64>) -> (r: Vec<(u64, u64)>)
    ensures
        r@.len() == v@.len(),
        forall|p: int|
            #![trigger r@[p]]
            0 <= p < v@.len() ==> r@[p].0 as nat == count_below(v@, v@[p]) && r@[p].1 as nat
                == count_ties(v@, v@[p]),
{
    let n = v.len();
    let mut out: Vec<(u64, u64)> = Vec::new();
    let mut p: usize = 0;
    while p < n
        invariant
            0 <= p <= n,
            n == v@.len(),
            out@.len() == p,
            forall|q: int|
                #![trigger out@[q]]
                0 <= q < p ==> out@[q].0 as nat == count_below(v@, v@[q]) && out@[q].1 as nat
                    == count_ties(v@, v@[q]),
        decreases n - p,
    {
        let b = v[p];
        let mut below: u64 = 0;
        let mut ties: u64 = 0;
        let mut q: usize = 0;
        while q < n
            invariant
                0 <= q <= n,
                below as nat == count_below(v@.subrange(0, q as int), b),
                ties as nat == count_ties(v@.subrange(0, q as int), b),
                below <= q,
                ties <= q,
                b == v@[p as int],
            decreases n - q,
        {
            proof {
                assert(v@.subrange(0, q + 1).drop_last() =~= v@.subrange(0, q as int));
                assert(v@.subrange(0, q + 1).last() == v@[q as int]);
            }
            if bits::lt_bits_exec(v[q], b) {
                below = below + 1;
            } else if bits::le_bits_exec(b, v[q]) && bits::le_bits_exec(v[q], b) {
                ties = ties + 1;
            }
            q = q + 1;
        }
        proof {
            assert(v@.subrange(0, n as int) =~= v@);
        }
        out.push((below, ties));
        p = p + 1;
    }
    out
}

} // verus!
