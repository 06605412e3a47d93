//! What holds of every selection.

use crate::choice::{drawn_resampling_of, drawn_selection_of, resampling_of, selection_of};
use crate::walk::{first_at_least, lemma_first_at_least_bounds, walk_pick};
use crate::wheel::{
    arc_end, first_reaching, lemma_first_reaching_is, lemma_spoke_on_wheel,
    lemma_weight_before_monotone, pick, spoke_at, total_weight, weight_before,
};
use vstd::prelude::*;

verus! {

proof fn lemma_first_reaching_found(weights: Seq<u64>, n: int, target: int, from: int)
    requires
        0 <= from < weights.len(),
        target <= n * total_weight(weights),
        from > 0 ==> arc_end(weights, n, from - 1) < target,
    ensures
        from <= first_reaching(weights, n, target, from) < weights.len(),
        arc_end(weights, n, first_reaching(weights, n, target, from)) >= target,
        first_reaching(weights, n, target, from) > 0 ==> arc_end(
            weights,
            n,
            first_reaching(weights, n, target, from) - 1,
        ) < target,
    decreases weights.len() - from,
{
    if arc_end(weights, n, from) < target {
        lemma_first_reaching_found(weights, n, target, from + 1);
    }
}

/// The selected item is the one on whose arc the spoke stands: its arc
/// ends at or beyond the spoke, and the arc before it ends short of the
/// spoke.
pub proof fn lemma_pick_under_spoke(weights: Seq<u64>, n: int, spin: int, k: int)
    requires
        weights.len() > 0,
        0 <= spin <= total_weight(weights),
        0 <= k < n,
    ensures
        0 <= pick(weights, n, spin, k) < weights.len(),
        arc_end(weights, n, pick(weights, n, spin, k)) >= spoke_at(weights, spin, k),
        pick(weights, n, spin, k) > 0 ==> arc_end(weights, n, pick(weights, n, spin, k) - 1)
            < spoke_at(weights, spin, k),
{
    lemma_spoke_on_wheel(weights, n, spin, k);
    lemma_first_reaching_found(weights, n, spoke_at(weights, spin, k), 0);
}

/// With the spin fixed the selection is fixed: two results for the same
/// samples, weights, count and spin are the same sequence.
pub proof fn lemma_spin_determines_selection<T>(
    samples: Seq<T>,
    weights: Seq<u64>,
    n: int,
    spin: int,
    first: Seq<&T>,
    second: Seq<&T>,
)
    requires
        selection_of(samples, weights, n, spin, first),
        selection_of(samples, weights, n, spin, second),
    ensures
        first == second,
{
    assert forall|k: int| 0 <= k < first.len() implies first[k] == second[k] by {
        assert(*first[k] == samples[pick(weights, n, spin, k)]);
        assert(*second[k] == samples[pick(weights, n, spin, k)]);
    }
    assert(first =~= second);
}

/// Where a clone always equals what it was cloned from, the spin fixes
/// the resampled buffer as well.
pub proof fn lemma_spin_determines_resampling<T: Clone>(
    before: Seq<T>,
    weights: Seq<u64>,
    spin: int,
    first: Seq<T>,
    second: Seq<T>,
)
    requires
        before.len() == weights.len(),
        resampling_of(before, weights, spin, first),
        resampling_of(before, weights, spin, second),
        forall|a: T, b: T| #[trigger] cloned(a, b) ==> a == b,
    ensures
        first == second,
{
    let n = weights.len() as int;
    assert forall|k: int| 0 <= k < first.len() implies first[k] == second[k] by {
        assert(cloned(before[pick(weights, n, spin, k)], first[k]));
        assert(cloned(before[pick(weights, n, spin, k)], second[k]));
    }
    assert(first =~= second);
}

/// After a spin of at least 1 no item of weight zero is selected.
pub proof fn lemma_pick_has_weight(weights: Seq<u64>, n: int, spin: int, k: int)
    requires
        weights.len() > 0,
        1 <= spin <= total_weight(weights),
        0 <= k < n,
    ensures
        0 <= pick(weights, n, spin, k) < weights.len(),
        weights[pick(weights, n, spin, k)] > 0,
{
    lemma_pick_under_spoke(weights, n, spin, k);
    lemma_spoke_on_wheel(weights, n, spin, k);
    let i = pick(weights, n, spin, k);
    let target = spoke_at(weights, spin, k);
    let below = weight_before(weights, i);
    let through = weight_before(weights, i + 1);
    assert(target >= 1) by (nonlinear_arith)
        requires
            target == spin + k * total_weight(weights),
            spin >= 1,
            k >= 0,
            total_weight(weights) >= 1,
    ;
    lemma_weight_before_monotone(weights, i, i);
    assert(n * below < n * through) by {
        if i == 0 {
            assert(below == 0);
            assert(n * below == 0) by (nonlinear_arith)
                requires
                    below == 0,
            ;
        }
    }
    assert(below < through) by (nonlinear_arith)
        requires
            n * below < n * through,
            n > 0,
    ;
}

/// Where one item carries all the weight, every spoke of a spin of at
/// least 1 selects it.
pub proof fn lemma_single_weight_takes_all(
    weights: Seq<u64>,
    n: int,
    spin: int,
    heavy: int,
    k: int,
)
    requires
        0 <= heavy < weights.len(),
        forall|i: int| 0 <= i < weights.len() && i != heavy ==> weights[i] == 0,
        1 <= spin <= total_weight(weights),
        0 <= k < n,
    ensures
        pick(weights, n, spin, k) == heavy,
{
    lemma_pick_has_weight(weights, n, spin, k);
}

/// Resampling in place and selecting as many samples as there are weights
/// agree: what a slot holds afterwards is a clone of what the selection
/// borrows at the same position.
pub proof fn lemma_in_place_agrees_with_selection<T: Clone>(
    samples: Seq<T>,
    weights: Seq<u64>,
    spin: int,
    choices: Seq<&T>,
    after: Seq<T>,
    k: int,
)
    requires
        samples.len() == weights.len(),
        selection_of(samples, weights, weights.len() as int, spin, choices),
        resampling_of(samples, weights, spin, after),
        0 <= k < weights.len(),
    ensures
        cloned(*choices[k], after[k]),
{
    assert(*choices[k] == samples[pick(weights, weights.len() as int, spin, k)]);
    assert(cloned(samples[pick(weights, weights.len() as int, spin, k)], after[k]));
}

proof fn lemma_equal_weights_sum(weights: Seq<u64>, weight: u64, upto: int)
    requires
        0 <= upto <= weights.len(),
        forall|i: int| 0 <= i < weights.len() ==> weights[i] == weight,
    ensures
        weight_before(weights, upto) == upto * weight,
    decreases upto,
{
    if upto > 0 {
        lemma_equal_weights_sum(weights, weight, upto - 1);
        assert((upto - 1) * weight + weight == upto * weight) by (nonlinear_arith);
    } else {
        assert(0 * weight == 0) by (nonlinear_arith);
    }
}

/// With equal weights and as many spokes as items, every spin of at least
/// 1 has spoke `k` select item `k`: each item is selected exactly once, in
/// order.
pub proof fn lemma_equal_weights_pick_in_order(weights: Seq<u64>, weight: u64, spin: int, k: int)
    requires
        forall|i: int| 0 <= i < weights.len() ==> weights[i] == weight,
        1 <= spin <= total_weight(weights),
        0 <= k < weights.len(),
    ensures
        pick(weights, weights.len() as int, spin, k) == k,
{
    let n = weights.len() as int;
    let total = total_weight(weights);
    lemma_equal_weights_sum(weights, weight, n);
    lemma_equal_weights_sum(weights, weight, k);
    lemma_equal_weights_sum(weights, weight, k + 1);
    assert(n * ((k + 1) * weight) == k * (n * weight) + n * weight) by (nonlinear_arith);
    assert(n * (k * weight) == k * (n * weight)) by (nonlinear_arith);
    lemma_first_reaching_is(weights, n, spoke_at(weights, spin, k), k);
}

/// Whatever spin is drawn, every selected sample is one whose weight is
/// not zero.
pub proof fn lemma_drawn_selection_has_weight<T>(
    samples: Seq<T>,
    weights: Seq<u64>,
    n: int,
    choices: Seq<&T>,
    k: int,
)
    requires
        weights.len() > 0,
        drawn_selection_of(samples, weights, n, choices),
        0 <= k < n,
    ensures
        exists|i: int| 0 <= i < weights.len() && weights[i] > 0 && *choices[k] == samples[i],
{
    let spin = choose|spin: int|
        1 <= spin <= total_weight(weights) && #[trigger] selection_of(
            samples,
            weights,
            n,
            spin,
            choices,
        );
    lemma_pick_has_weight(weights, n, spin, k);
    let i = pick(weights, n, spin, k);
    assert(*choices[k] == samples[i]);
}

/// Whatever spin is drawn, equal weights and as many spokes as items
/// select every sample once, in order.
pub proof fn lemma_drawn_equal_weights_in_order<T>(
    samples: Seq<T>,
    weights: Seq<u64>,
    weight: u64,
    choices: Seq<&T>,
    k: int,
)
    requires
        forall|i: int| 0 <= i < weights.len() ==> weights[i] == weight,
        drawn_selection_of(samples, weights, weights.len() as int, choices),
        0 <= k < weights.len(),
    ensures
        *choices[k] == samples[k],
{
    let spin = choose|spin: int|
        1 <= spin <= total_weight(weights) && #[trigger] selection_of(
            samples,
            weights,
            weights.len() as int,
            spin,
            choices,
        );
    lemma_equal_weights_pick_in_order(weights, weight, spin, k);
    assert(*choices[k] == samples[pick(weights, weights.len() as int, spin, k)]);
}

/// Whatever spin is drawn, where one item carries all the weight every
/// slot of the resampled buffer holds a clone of that item's sample.
pub proof fn lemma_drawn_single_weight_takes_all<T: Clone>(
    before: Seq<T>,
    weights: Seq<u64>,
    heavy: int,
    after: Seq<T>,
    k: int,
)
    requires
        0 <= heavy < weights.len(),
        forall|i: int| 0 <= i < weights.len() && i != heavy ==> weights[i] == 0,
        drawn_resampling_of(before, weights, after),
        0 <= k < weights.len(),
    ensures
        cloned(before[heavy], after[k]),
{
    let spin = choose|spin: int|
        1 <= spin <= total_weight(weights) && #[trigger] resampling_of(
            before,
            weights,
            spin,
            after,
        );
    lemma_single_weight_takes_all(weights, weights.len() as int, spin, heavy, k);
    assert(cloned(before[pick(weights, weights.len() as int, spin, k)], after[k]));
}

proof fn lemma_first_at_least_skips(arc_ends: Seq<u64>, target: u64, from: int, to: int)
    requires
        0 <= from <= to <= first_at_least(arc_ends, target, from),
    ensures
        first_at_least(arc_ends, target, to) == first_at_least(arc_ends, target, from),
    decreases to - from,
{
    if from < to {
        if from < arc_ends.len() && arc_ends[from] < target {
            lemma_first_at_least_skips(arc_ends, target, from + 1, to);
        }
    }
}

proof fn lemma_first_at_least_monotone(arc_ends: Seq<u64>, near: u64, far: u64, from: int)
    requires
        near <= far,
        0 <= from,
    ensures
        first_at_least(arc_ends, near, from) <= first_at_least(arc_ends, far, from),
    decreases arc_ends.len() - from,
{
    if from < arc_ends.len() {
        if arc_ends[from] >= near {
            lemma_first_at_least_bounds(arc_ends, far, from);
        } else {
            lemma_first_at_least_monotone(arc_ends, near, far, from + 1);
        }
    }
}

/// Where no spoke lies below the one before it, the walk stops for each
/// spoke at the first arc end of all that is not below the spoke: resuming
/// where the last spoke stopped skips nothing.
pub proof fn lemma_walk_pick_is_first(arc_ends: Seq<u64>, spokes: Seq<u64>, k: int)
    requires
        0 <= k < spokes.len(),
        forall|a: int, b: int|
            0 <= a <= b < spokes.len() ==> #[trigger] spokes[a] <= #[trigger] spokes[b],
    ensures
        walk_pick(arc_ends, spokes, k) == first_at_least(arc_ends, spokes[k], 0),
    decreases k,
{
    if k > 0 {
        lemma_walk_pick_is_first(arc_ends, spokes, k - 1);
        lemma_first_at_least_monotone(arc_ends, spokes[k - 1], spokes[k], 0);
        lemma_first_at_least_bounds(arc_ends, spokes[k - 1], 0);
    }
    lemma_first_at_least_bounds(arc_ends, spokes[k], 0);
    lemma_first_at_least_skips(arc_ends, spokes[k], 0, walk_pick(arc_ends, spokes, k - 1));
}

proof fn lemma_first_at_least_on_wheel(
    weights: Seq<u64>,
    n: int,
    arc_ends: Seq<u64>,
    target: u64,
    from: int,
)
    requires
        0 <= from,
        arc_ends.len() == weights.len(),
        forall|i: int| 0 <= i < weights.len() ==> #[trigger] arc_ends[i] == arc_end(weights, n, i),
    ensures
        first_at_least(arc_ends, target, from) == first_reaching(weights, n, target as int, from),
    decreases weights.len() - from,
{
    if from < weights.len() && arc_ends[from] < target {
        lemma_first_at_least_on_wheel(weights, n, arc_ends, target, from + 1);
    }
}

/// A walk over the wheel's own arc ends and spokes stops where the wheel
/// selects.
pub proof fn lemma_walk_on_wheel(
    weights: Seq<u64>,
    n: int,
    spin: int,
    arc_ends: Seq<u64>,
    spokes: Seq<u64>,
    k: int,
)
    requires
        0 <= k < spokes.len(),
        arc_ends.len() == weights.len(),
        forall|i: int| 0 <= i < weights.len() ==> #[trigger] arc_ends[i] == arc_end(weights, n, i),
        forall|j: int| 0 <= j < spokes.len() ==> #[trigger] spokes[j] == spoke_at(weights, spin, j),
    ensures
        walk_pick(arc_ends, spokes, k) == pick(weights, n, spin, k),
{
    let total = total_weight(weights);
    lemma_weight_before_monotone(weights, 0, weights.len() as int);
    assert forall|a: int, b: int| 0 <= a <= b < spokes.len() implies #[trigger] spokes[a]
        <= #[trigger] spokes[b] by {
        assert(a * total <= b * total) by (nonlinear_arith)
            requires
                a <= b,
                0 <= total,
        ;
    }
    lemma_walk_pick_is_first(arc_ends, spokes, k);
    lemma_first_at_least_on_wheel(weights, n, arc_ends, spokes[k], 0);
}

} // verus!
