//! The wheel: cumulative weights, spokes, and the item under a spoke.
//!
//! The arc of an item is as long as its weight, and the spokes are one
//! `n`-th of the total weight apart. All positions are measured on the
//! wheel scaled by the number of spokes `n`, which keeps them integral: the
//! arc of item `i` ends at `n` times the weight of the items up to and
//! including `i`, and spoke `k` stands at `spin + k * total`. A spoke
//! selects the first item whose arc ends at or beyond it.

use crate::error::SamplingError;
use vstd::prelude::*;

verus! {

/// Sum of the weights of the items before index `upto`.
pub open spec fn weight_before(weights: Seq<u64>, upto: int) -> int
    decreases upto,
{
    if upto <= 0 {
        0
    } else {
        weight_before(weights, upto - 1) + weights[upto - 1] as int
    }
}

/// Sum of all weights.
pub open spec fn total_weight(weights: Seq<u64>) -> int {
    weight_before(weights, weights.len() as int)
}

/// Cumulative weights never decrease along the sequence.
pub proof fn lemma_weight_before_monotone(weights: Seq<u64>, a: int, b: int)
    requires
        0 <= a <= b,
    ensures
        0 <= weight_before(weights, a) <= weight_before(weights, b),
    decreases b,
{
    if a < b {
        lemma_weight_before_monotone(weights, a, b - 1);
    } else if a > 0 {
        lemma_weight_before_monotone(weights, a - 1, a - 1);
    }
}

/// Where item `i` ends on the wheel scaled by `n`.
pub open spec fn arc_end(weights: Seq<u64>, n: int, i: int) -> int {
    n * weight_before(weights, i + 1)
}

/// Where spoke `k` stands on the scaled wheel.
pub open spec fn spoke_at(weights: Seq<u64>, spin: int, k: int) -> int {
    spin + k * total_weight(weights)
}

/// The first item at or after `from` whose arc ends at or beyond `target`,
/// or the number of items if there is none.
pub open spec fn first_reaching(weights: Seq<u64>, n: int, target: int, from: int) -> int
    decreases weights.len() - from,
{
    if from >= weights.len() {
        weights.len() as int
    } else if arc_end(weights, n, from) >= target {
        from
    } else {
        first_reaching(weights, n, target, from + 1)
    }
}

/// The index of the item that spoke `k` selects.
pub open spec fn pick(weights: Seq<u64>, n: int, spin: int, k: int) -> int {
    first_reaching(weights, n, spoke_at(weights, spin, k), 0)
}

/// Arc ends never decrease along the wheel.
pub proof fn lemma_arc_end_monotone(weights: Seq<u64>, n: int, a: int, b: int)
    requires
        0 <= n,
        -1 <= a <= b,
    ensures
        0 <= arc_end(weights, n, a) <= arc_end(weights, n, b),
{
    lemma_weight_before_monotone(weights, a + 1, b + 1);
    assert(0 <= n * weight_before(weights, a + 1) <= n * weight_before(weights, b + 1))
        by (nonlinear_arith)
        requires
            0 <= n,
            0 <= weight_before(weights, a + 1) <= weight_before(weights, b + 1),
    ;
}

/// An item that reaches the target while its predecessor does not is the
/// first one to reach it.
pub proof fn lemma_first_reaching_is(weights: Seq<u64>, n: int, target: int, i: int)
    requires
        0 <= n,
        0 <= i < weights.len(),
        arc_end(weights, n, i) >= target,
        i > 0 ==> arc_end(weights, n, i - 1) < target,
    ensures
        first_reaching(weights, n, target, 0) == i,
{
    lemma_first_reaching_from(weights, n, target, i, 0);
}

proof fn lemma_first_reaching_from(weights: Seq<u64>, n: int, target: int, i: int, from: int)
    requires
        0 <= n,
        0 <= from <= i < weights.len(),
        arc_end(weights, n, i) >= target,
        i > 0 ==> arc_end(weights, n, i - 1) < target,
    ensures
        first_reaching(weights, n, target, from) == i,
    decreases i - from,
{
    if from < i {
        lemma_arc_end_monotone(weights, n, from, i - 1);
        lemma_first_reaching_from(weights, n, target, i, from + 1);
    }
}

/// The search result lies between its start and the number of items.
pub proof fn lemma_first_reaching_bounds(weights: Seq<u64>, n: int, target: int, from: int)
    requires
        0 <= from <= weights.len(),
    ensures
        from <= first_reaching(weights, n, target, from) <= weights.len(),
    decreases weights.len() - from,
{
    if from < weights.len() && arc_end(weights, n, from) < target {
        lemma_first_reaching_bounds(weights, n, target, from + 1);
    }
}

/// A farther target is reached no earlier.
pub proof fn lemma_first_reaching_monotone(
    weights: Seq<u64>,
    n: int,
    near: int,
    far: int,
    from: int,
)
    requires
        near <= far,
        0 <= from <= weights.len(),
    ensures
        first_reaching(weights, n, near, from) <= first_reaching(weights, n, far, from),
    decreases weights.len() - from,
{
    if from < weights.len() {
        if arc_end(weights, n, from) >= near {
            lemma_first_reaching_bounds(weights, n, far, from);
        } else {
            lemma_first_reaching_monotone(weights, n, near, far, from + 1);
        }
    }
}

/// Later spokes select later or equal items.
pub proof fn lemma_pick_monotone(weights: Seq<u64>, n: int, spin: int, a: int, b: int)
    requires
        a <= b,
    ensures
        pick(weights, n, spin, a) <= pick(weights, n, spin, b),
{
    let total = total_weight(weights);
    lemma_weight_before_monotone(weights, 0, weights.len() as int);
    assert(a * total <= b * total) by (nonlinear_arith)
        requires
            a <= b,
            0 <= total,
    ;
    lemma_first_reaching_monotone(
        weights,
        n,
        spoke_at(weights, spin, a),
        spoke_at(weights, spin, b),
        0,
    );
}

/// Every spoke of a spin that does not exceed the total weight stands on
/// the wheel.
pub proof fn lemma_spoke_on_wheel(weights: Seq<u64>, n: int, spin: int, k: int)
    requires
        0 <= spin <= total_weight(weights),
        0 <= k < n,
    ensures
        0 <= spoke_at(weights, spin, k) <= n * total_weight(weights),
        spoke_at(weights, spin, k) + total_weight(weights) == spoke_at(weights, spin, k + 1),
{
    let total = total_weight(weights);
    assert(0 <= k * total && spin + k * total <= n * total && k * total + total == (k + 1)
        * total) by (nonlinear_arith)
        requires
            0 <= spin <= total,
            0 <= k < n,
    ;
}

/// Adds up the weights.
pub fn sum_weights(weights: &[u64]) -> (sum: u64)
    requires
        total_weight(weights@) <= u64::MAX,
    ensures
        sum == total_weight(weights@),
{
    let mut sum: u64 = 0;
    let mut i: usize = 0;
    while i < weights.len()
        invariant
            i <= weights.len(),
            sum == weight_before(weights@, i as int),
            total_weight(weights@) <= u64::MAX,
        decreases weights.len() - i,
    {
        proof {
            lemma_weight_before_monotone(weights@, i + 1, weights.len() as int);
        }
        sum = sum + weights[i];
        i = i + 1;
    }
    sum
}

/// Why the weights cannot lay out a wheel, if they cannot: their sum does
/// not fit in `u64`, or it is zero.
pub open spec fn weights_rejection(weights: Seq<u64>) -> Option<SamplingError> {
    if total_weight(weights) > u64::MAX {
        Some(SamplingError::InvalidWeights)
    } else if total_weight(weights) == 0 {
        Some(SamplingError::InvalidInput)
    } else {
        None
    }
}

/// Adds up the weights, or returns `None` if the sum exceeds `u64::MAX`.
pub fn checked_sum_weights(weights: &[u64]) -> (sum: Option<u64>)
    ensures
        sum is Some <==> total_weight(weights@) <= u64::MAX,
        sum is Some ==> sum->Some_0 == total_weight(weights@),
{
    let mut sum: u64 = 0;
    let mut i: usize = 0;
    while i < weights.len()
        invariant
            i <= weights.len(),
            sum == weight_before(weights@, i as int),
        decreases weights.len() - i,
    {
        proof {
            lemma_weight_before_monotone(weights@, i + 1, weights.len() as int);
        }
        if weights[i] > u64::MAX - sum {
            return None;
        }
        sum = sum + weights[i];
        i = i + 1;
    }
    Some(sum)
}

/// Adds up the weights and checks that they lay out a wheel.
pub fn check_weights(weights: &[u64]) -> (checked: Result<u64, SamplingError>)
    ensures
        checked is Err <==> weights_rejection(weights@) is Some,
        checked is Err ==> weights_rejection(weights@) == Some(checked->Err_0),
        checked is Ok ==> checked->Ok_0 == total_weight(weights@),
{
    match checked_sum_weights(weights) {
        None => Err(SamplingError::InvalidWeights),
        Some(total) => if total == 0 {
            Err(SamplingError::InvalidInput)
        } else {
            Ok(total)
        },
    }
}

/// Walks forward from item `start` to the first item whose arc ends at or
/// beyond `target`, keeping the cumulative weight through the current item.
pub fn advance_to(weights: &[u64], n: usize, target: u128, start: usize, through: u64) -> (at: (
    usize,
    u64,
))
    requires
        total_weight(weights@) <= u64::MAX,
        start < weights.len(),
        through == weight_before(weights@, start + 1),
        start > 0 ==> arc_end(weights@, n as int, start - 1) < target,
        target <= n * total_weight(weights@),
    ensures
        at.0 == first_reaching(weights@, n as int, target as int, 0),
        start <= at.0 < weights.len(),
        at.1 == weight_before(weights@, at.0 + 1),
        at.0 > 0 ==> arc_end(weights@, n as int, at.0 - 1) < target,
{
    let mut i: usize = start;
    let mut acc: u64 = through;
    loop
        invariant
            total_weight(weights@) <= u64::MAX,
            start <= i < weights.len(),
            acc == weight_before(weights@, i + 1),
            i > 0 ==> arc_end(weights@, n as int, i - 1) < target,
            target <= n * total_weight(weights@),
        ensures
            start <= i < weights.len(),
            acc == weight_before(weights@, i + 1),
            i == first_reaching(weights@, n as int, target as int, 0),
            i > 0 ==> arc_end(weights@, n as int, i - 1) < target,
        decreases weights.len() - i,
    {
        assert(n * acc <= u128::MAX) by (nonlinear_arith)
            requires
                n <= u64::MAX,
                acc <= u64::MAX,
        ;
        if (n as u128) * (acc as u128) >= target {
            proof {
                lemma_first_reaching_is(weights@, n as int, target as int, i as int);
            }
            break ;
        }
        proof {
            lemma_weight_before_monotone(weights@, i + 2, weights.len() as int);
        }
        i = i + 1;
        acc = acc + weights[i];
    }
    (i, acc)
}

/// Walks backward from item `start`, whose arc ends at or beyond `target`,
/// to the first item of which that holds.
pub fn retreat_to(weights: &[u64], n: usize, target: u128, start: usize, through: u64) -> (at: (
    usize,
    u64,
))
    requires
        total_weight(weights@) <= u64::MAX,
        start < weights.len(),
        through == weight_before(weights@, start + 1),
        arc_end(weights@, n as int, start as int) >= target,
    ensures
        at.0 == first_reaching(weights@, n as int, target as int, 0),
        at.0 <= start,
        at.1 == weight_before(weights@, at.0 + 1),
        arc_end(weights@, n as int, at.0 as int) >= target,
{
    let mut i: usize = start;
    let mut acc: u64 = through;
    loop
        invariant
            total_weight(weights@) <= u64::MAX,
            i <= start < weights.len(),
            acc == weight_before(weights@, i + 1),
            arc_end(weights@, n as int, i as int) >= target,
        ensures
            i <= start,
            acc == weight_before(weights@, i + 1),
            arc_end(weights@, n as int, i as int) >= target,
            i == first_reaching(weights@, n as int, target as int, 0),
        decreases i,
    {
        if i == 0 {
            proof {
                lemma_first_reaching_is(weights@, n as int, target as int, 0);
            }
            break ;
        }
        proof {
            lemma_weight_before_monotone(weights@, i as int, i as int);
        }
        let before: u64 = acc - weights[i];
        assert(n * before <= u128::MAX) by (nonlinear_arith)
            requires
                n <= u64::MAX,
                before <= u64::MAX,
        ;
        if (n as u128) * (before as u128) < target {
            proof {
                lemma_first_reaching_is(weights@, n as int, target as int, i as int);
            }
            break ;
        }
        i = i - 1;
        acc = before;
    }
    (i, acc)
}

} // verus!
