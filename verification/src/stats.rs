//! The stats reporter's numeric core. After each dispatcher step the
//! reporter renders every worker's pending count together with the mean and
//! the population variance of the counts. The divisions belong to the
//! renderer; what is computed here, exactly, are the two sums they need:
//! the sum of the pending counts and the sum of their squares.

use vstd::prelude::*;

use crate::pool::Worker;
use crate::pool::lemma_sum_nonneg;
use crate::pool::lemma_sum_push;
use crate::pool::sum_pending;
use crate::pool::sum_sq_pending;

verus! {

/// A prefix of the pool never sums to more than the whole pool: pending
/// counts and their squares are non-negative.
pub proof fn lemma_sum_prefix_bound(s: Seq<Worker>, i: int)
    requires
        0 <= i <= s.len(),
    ensures
        sum_pending(s.take(i)) <= sum_pending(s),
        sum_sq_pending(s.take(i)) <= sum_sq_pending(s),
    decreases s.len() - i,
{
    if i < s.len() {
        assert(s.take(i).push(s[i]) =~= s.take(i + 1));
        lemma_sum_push(s.take(i), s[i]);
        lemma_sum_prefix_bound(s, i + 1);
    } else {
        assert(s.take(i) =~= s);
    }
}

/// The two aggregates of a pool snapshot: the sum of all pending counts and
/// the sum of their squares. The mean of the counts is the first divided by
/// the pool size, and the population variance is the second divided by the
/// pool size minus the square of the mean.
pub fn stats(workers: &Vec<Worker>) -> (r: (u128, u128))
    requires
        sum_pending(workers@) <= u128::MAX,
        sum_sq_pending(workers@) <= u128::MAX,
    ensures
        r.0 == sum_pending(workers@),
        r.1 == sum_sq_pending(workers@),
{
    let mut sum: u128 = 0;
    let mut sumsq: u128 = 0;
    let mut i: usize = 0;
    while i < workers.len()
        invariant
            i <= workers@.len(),
            sum == sum_pending(workers@.take(i as int)),
            sumsq == sum_sq_pending(workers@.take(i as int)),
            sum_pending(workers@) <= u128::MAX,
            sum_sq_pending(workers@) <= u128::MAX,
        decreases workers@.len() - i,
    {
        let p = workers[i].pending;
        proof {
            assert(workers@.take(i as int).push(workers@[i as int]) =~= workers@.take(
                i as int + 1,
            ));
            lemma_sum_push(workers@.take(i as int), workers@[i as int]);
            lemma_sum_nonneg(workers@.take(i as int));
            lemma_sum_prefix_bound(workers@, i as int + 1);
        }
        sum = sum + (p as u128);
        sumsq = sumsq + (p as u128) * (p as u128);
        i += 1;
    }
    proof {
        assert(workers@.take(workers@.len() as int) =~= workers@);
    }
    (sum, sumsq)
}

} // verus!
