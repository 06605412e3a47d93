//! How often an item is selected.
//!
//! One spin places all spokes, so an item cannot be missed or favoured by
//! much: it is selected as often as its share of the spokes says, rounded
//! down or up.

use crate::laws::lemma_pick_under_spoke;
use crate::wheel::{
    arc_end, lemma_arc_end_monotone, lemma_first_reaching_is, lemma_spoke_on_wheel, pick,
    spoke_at, total_weight, weight_before,
};
use vstd::arithmetic::div_mod::{
    lemma_fundamental_div_mod, lemma_fundamental_div_mod_converse, lemma_mod_bound,
};
use vstd::prelude::*;

verus! {

/// How many of the first `upto` spokes select item `i`.
pub open spec fn times_picked(weights: Seq<u64>, n: int, spin: int, i: int, upto: int) -> int
    decreases upto,
{
    if upto <= 0 {
        0
    } else {
        times_picked(weights, n, spin, i, upto - 1) + if pick(weights, n, spin, upto - 1) == i {
            1int
        } else {
            0int
        }
    }
}

/// The number of multiples `k * step`, `k >= 0`, that are at most `y`, for
/// `y >= -step`.
spec fn steps_within(y: int, step: int) -> int {
    y / step + 1
}

proof fn lemma_steps_within(y: int, step: int, k: int)
    requires
        0 < step,
    ensures
        k * step <= y <==> k < steps_within(y, step),
{
    lemma_fundamental_div_mod(y, step);
    lemma_mod_bound(y, step);
    let q = y / step;
    let r = y % step;
    if k <= q {
        assert(k * step <= step * q) by (nonlinear_arith)
            requires
                k <= q,
                0 < step,
        ;
    } else {
        assert(k * step >= step * q + step) by (nonlinear_arith)
            requires
                k >= q + 1,
                0 < step,
        ;
    }
}

proof fn lemma_steps_within_bounds(y: int, step: int, least: int, most: int)
    requires
        0 < step,
        least * step <= y < most * step,
    ensures
        least < steps_within(y, step) <= most,
{
    lemma_steps_within(y, step, least);
    lemma_steps_within(y, step, most);
}

proof fn lemma_steps_within_span(y: int, span: int, step: int)
    requires
        0 < step,
        0 <= span,
    ensures
        span / step <= steps_within(y + span, step) - steps_within(y, step) <= span / step + 1,
        span % step == 0 ==> steps_within(y + span, step) - steps_within(y, step) == span / step,
{
    lemma_fundamental_div_mod(y, step);
    lemma_mod_bound(y, step);
    lemma_fundamental_div_mod(span, step);
    lemma_mod_bound(span, step);
    let q = y / step + span / step;
    let r = y % step + span % step;
    assert(y + span == q * step + r) by (nonlinear_arith)
        requires
            y == step * (y / step) + (y % step),
            span == step * (span / step) + (span % step),
            q == y / step + span / step,
            r == y % step + span % step,
    ;
    if r < step {
        lemma_fundamental_div_mod_converse(y + span, step, q, r);
    } else {
        assert(y + span == (q + 1) * step + (r - step)) by (nonlinear_arith)
            requires
                y + span == q * step + r,
        ;
        lemma_fundamental_div_mod_converse(y + span, step, q + 1, r - step);
    }
}

proof fn lemma_times_picked_in_run(
    weights: Seq<u64>,
    n: int,
    spin: int,
    i: int,
    from: int,
    to: int,
    upto: int,
)
    requires
        0 <= from <= to,
        0 <= upto,
        forall|k: int|
            0 <= k < upto ==> (#[trigger] pick(weights, n, spin, k) == i <==> from <= k < to),
    ensures
        times_picked(weights, n, spin, i, upto) == if upto <= from {
            0
        } else if upto <= to {
            upto - from
        } else {
            to - from
        },
    decreases upto,
{
    if upto > 0 {
        lemma_times_picked_in_run(weights, n, spin, i, from, to, upto - 1);
        assert(pick(weights, n, spin, upto - 1) == i <==> from <= upto - 1 < to);
    }
}

/// After a spin of at least 1, an item is selected as often as its share
/// `n * weight / total` of the `n` spokes, rounded down or up; where the
/// share is whole, exactly that often.
pub proof fn lemma_picked_by_share(weights: Seq<u64>, n: int, spin: int, i: int)
    requires
        0 <= n,
        0 <= i < weights.len(),
        1 <= spin <= total_weight(weights),
    ensures
        (n * weights[i]) / total_weight(weights) <= times_picked(weights, n, spin, i, n) <= (n
            * weights[i]) / total_weight(weights) + 1,
        (n * weights[i]) % total_weight(weights) == 0 ==> times_picked(weights, n, spin, i, n)
            == (n * weights[i]) / total_weight(weights),
{
    let total = total_weight(weights);
    let below = arc_end(weights, n, i - 1);
    let through = arc_end(weights, n, i);
    let span = n * weights[i];
    lemma_arc_end_monotone(weights, n, -1, i - 1);
    lemma_arc_end_monotone(weights, n, i, weights.len() - 1);
    assert(arc_end(weights, n, -1) == 0) by (nonlinear_arith)
        requires
            arc_end(weights, n, -1) == n * 0,
    ;
    assert(through == below + span && span >= 0) by (nonlinear_arith)
        requires
            through == n * (weight_before(weights, i) + weights[i]),
            below == n * weight_before(weights, i),
            span == n * weights[i],
            n >= 0,
            weights[i] >= 0,
    ;
    let from = steps_within(below - spin, total);
    let to = steps_within(through - spin, total);
    assert(-1 * total <= below - spin) by (nonlinear_arith)
        requires
            0 <= below,
            spin <= total,
    ;
    lemma_steps_within_bounds(below - spin, total, -1, n);
    lemma_steps_within_bounds(through - spin, total, -1, n);
    lemma_steps_within_span(below - spin, span, total);
    assert forall|k: int| 0 <= k < n implies (#[trigger] pick(weights, n, spin, k) == i <==> from
        <= k < to) by {
        let spoke = spoke_at(weights, spin, k);
        lemma_steps_within(below - spin, total, k);
        lemma_steps_within(through - spin, total, k);
        assert(below < spoke <==> from <= k);
        assert(spoke <= through <==> k < to);
        lemma_pick_under_spoke(weights, n, spin, k);
        let picked = pick(weights, n, spin, k);
        if below < spoke <= through {
            lemma_first_reaching_is(weights, n, spoke, i);
        } else if picked == i {
            if i == 0 {
                lemma_spoke_on_wheel(weights, n, spin, k);
                assert(spoke >= 1) by (nonlinear_arith)
                    requires
                        spoke == spin + k * total,
                        spin >= 1,
                        k >= 0,
                        total >= 1,
                ;
            }
        }
    }
    lemma_times_picked_in_run(weights, n, spin, i, from, to, n);
}

} // verus!
