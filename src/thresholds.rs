//! The global filter threshold: a percentile of the best-call probabilities
//! of sampled reads.
use vstd::prelude::*;
use vstd::relations::{sorted_by, total_ordering};

use crate::mod_probs::BaseModCall;

verus! {

pub open spec fn prob_leq() -> spec_fn(u64, u64) -> bool {
    |a: u64, b: u64| a <= b
}

/// Relies on `slice::sort_unstable`: the same values, in ascending order.
#[verifier::external_body]
fn sort_probs(mut v: Vec<u64>) -> (r: Vec<u64>)
    ensures
        sorted_by(r@, prob_leq()),
        r@.to_multiset() == v@.to_multiset(),
{
    v.sort_unstable();
    v
}

/// The nearest-rank index `floor(p * n)` of the percentile `p = num / den`,
/// kept below `n`.
pub open spec fn percentile_index(n: nat, num: nat, den: nat) -> int {
    let i = (num * n) / den;
    if i >= n {
        n - 1
    } else {
        i as int
    }
}

/// The threshold of a sample: the value at the percentile's index once the
/// sample is sorted; none for an empty sample.
pub open spec fn threshold_spec(probs: Seq<u64>, num: nat, den: nat) -> Option<u64> {
    if probs.len() == 0 {
        None
    } else {
        Some(probs.sort_by(prob_leq())[percentile_index(probs.len(), num, den)])
    }
}

proof fn lemma_prob_leq_total()
    ensures
        total_ordering(prob_leq()),
{
}

/// The percentile of a sample of best-call probabilities, `num / den` being
/// the percentile as a fraction.
pub fn threshold_from_probs(probs: Vec<u64>, num: u64, den: u64) -> (r: Option<u64>)
    requires
        den > 0,
        num <= den,
    ensures
        r == threshold_spec(probs@, num as nat, den as nat),
{
    let n = probs.len();
    if n == 0 {
        return None;
    }
    let ghost unsorted = probs@;
    let sorted = sort_probs(probs);
    proof {
        assert((num as int) * (n as int) < 0x1_0000_0000_0000_0000_0000_0000_0000_0000) by (nonlinear_arith)
            requires
                num < 0x1_0000_0000_0000_0000,
                n < 0x1_0000_0000_0000_0000,
        ;
    }
    let idx128 = (num as u128) * (n as u128) / (den as u128);
    proof {
        assert((num as int) * (n as int) <= (den as int) * (n as int)) by (nonlinear_arith)
            requires
                num <= den,
                n >= 0,
        ;
        assert(((num as int) * (n as int)) / (den as int) <= n) by (nonlinear_arith)
            requires
                (num as int) * (n as int) <= (den as int) * (n as int),
                den > 0,
                n >= 0,
        ;
    }
    let idx: usize = if idx128 >= n as u128 {
        n - 1
    } else {
        idx128 as usize
    };
    proof {
        lemma_prob_leq_total();
        unsorted.to_multiset_ensures();
        sorted@.to_multiset_ensures();
        assert(sorted@.len() == n);
        unsorted.lemma_sort_by_ensures(prob_leq());
        vstd::seq_lib::lemma_sorted_unique(sorted@, unsorted.sort_by(prob_leq()), prob_leq());
        assert(sorted@ == unsorted.sort_by(prob_leq()));
        assert(idx as int == percentile_index(n as nat, num as nat, den as nat));
    }
    Some(sorted[idx])
}

/// The threshold depends only on which probabilities were sampled, not on
/// the order in which they came, so a reproducible sample gives a
/// reproducible threshold however the work was scheduled.
pub proof fn threshold_is_order_independent(a: Seq<u64>, b: Seq<u64>, num: nat, den: nat)
    requires
        a.to_multiset() == b.to_multiset(),
    ensures
        threshold_spec(a, num, den) == threshold_spec(b, num, den),
{
    lemma_prob_leq_total();
    a.lemma_sort_by_ensures(prob_leq());
    b.lemma_sort_by_ensures(prob_leq());
    vstd::seq_lib::lemma_sorted_unique(a.sort_by(prob_leq()), b.sort_by(prob_leq()), prob_leq());
    a.to_multiset_ensures();
    b.to_multiset_ensures();
    assert(a.len() == b.len());
}

/// Whether a record is sampled: its draw, uniform over all `u64`, falls
/// below the fraction `num / den` of the range.
pub open spec fn sampled_spec(draw: u64, num: nat, den: nat) -> bool {
    (draw as int) * (den as int) < (num as int) * 0x1_0000_0000_0000_0000
}

pub fn record_is_sampled(draw: u64, num: u64, den: u64) -> (r: bool)
    requires
        den > 0,
        num <= den,
    ensures
        r == sampled_spec(draw, num as nat, den as nat),
{
    proof {
        assert((draw as int) * (den as int) < 0x1_0000_0000_0000_0000_0000_0000_0000_0000) by (nonlinear_arith)
            requires
                draw < 0x1_0000_0000_0000_0000,
                den < 0x1_0000_0000_0000_0000,
        ;
    }
    let lhs = (draw as u128) * (den as u128);
    proof {
        assert((num as int) * 0x1_0000_0000_0000_0000 < 0x1_0000_0000_0000_0000_0000_0000_0000_0000) by (nonlinear_arith)
            requires
                num < 0x1_0000_0000_0000_0000,
        ;
    }
    let rhs = (num as u128) * 0x1_0000_0000_0000_0000u128;
    lhs < rhs
}

pub open spec fn call_prob(c: BaseModCall) -> u64 {
    match c {
        BaseModCall::Canonical(p) => p,
        BaseModCall::Modified(p, _) => p,
        BaseModCall::Filtered => 0,
    }
}

} // verus!
