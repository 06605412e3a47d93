//! The sampling entry points and what they promise.

use crate::error::SamplingError;
use crate::source::draw_spin;
use crate::wheel::{
    advance_to, arc_end, check_weights, lemma_pick_monotone, lemma_spoke_on_wheel, pick,
    retreat_to, spoke_at, sum_weights, total_weight, weight_before, weights_rejection,
};
use vstd::prelude::*;

verus! {

/// Stochastic universal sampling: selects items with probability
/// proportional to their weights, by one pass over the wheel.
pub struct RandomChoice;

/// `choices` holds, in spoke order, the samples that the `n` spokes of
/// `spin` select.
pub open spec fn selection_of<T>(
    samples: Seq<T>,
    weights: Seq<u64>,
    n: int,
    spin: int,
    choices: Seq<&T>,
) -> bool {
    &&& choices.len() == n
    &&& forall|k: int|
        #![trigger choices[k]]
        0 <= k < n ==> {
            &&& 0 <= pick(weights, n, spin, k) < weights.len()
            &&& *choices[k] == samples[pick(weights, n, spin, k)]
        }
}

/// `after` holds in every slot a clone of the sample of `before` that the
/// slot's spoke selects, with as many spokes as there are weights.
pub open spec fn resampling_of<T: Clone>(
    before: Seq<T>,
    weights: Seq<u64>,
    spin: int,
    after: Seq<T>,
) -> bool {
    &&& after.len() == before.len()
    &&& forall|k: int|
        #![trigger after[k]]
        0 <= k < weights.len() ==> {
            &&& 0 <= pick(weights, weights.len() as int, spin, k) < weights.len()
            &&& cloned(before[pick(weights, weights.len() as int, spin, k)], after[k])
        }
}

/// `choices` is what the `n` spokes select after some spin from `1` to the
/// total weight.
pub open spec fn drawn_selection_of<T>(
    samples: Seq<T>,
    weights: Seq<u64>,
    n: int,
    choices: Seq<&T>,
) -> bool {
    exists|spin: int|
        1 <= spin <= total_weight(weights) && #[trigger] selection_of(
            samples,
            weights,
            n,
            spin,
            choices,
        )
}

/// `after` is what resampling `before` gives after some spin from `1` to
/// the total weight.
pub open spec fn drawn_resampling_of<T: Clone>(
    before: Seq<T>,
    weights: Seq<u64>,
    after: Seq<T>,
) -> bool {
    exists|spin: int|
        1 <= spin <= total_weight(weights) && #[trigger] resampling_of(
            before,
            weights,
            spin,
            after,
        )
}

/// Why a checked selection of `n` out of `sample_count` samples fails, if
/// it does. A call without weights or with `n == 0` never fails.
pub open spec fn selection_rejection(sample_count: usize, weights: Seq<u64>, n: usize) -> Option<
    SamplingError,
> {
    if weights.len() == 0 || n == 0 {
        None
    } else if weights.len() > sample_count {
        Some(SamplingError::InvalidInput)
    } else {
        weights_rejection(weights)
    }
}

/// Why a checked resampling of `sample_count` samples fails, if it does. A
/// call with fewer than two weights never fails.
pub open spec fn resampling_rejection(sample_count: usize, weights: Seq<u64>) -> Option<
    SamplingError,
> {
    if weights.len() < 2 {
        None
    } else if weights.len() != sample_count {
        Some(SamplingError::InvalidInput)
    } else {
        weights_rejection(weights)
    }
}

impl RandomChoice {
    /// Selects `n` samples, each with probability proportional to its
    /// weight, after one random spin of the wheel.
    ///
    /// With no weights or `n == 0` the result is empty. Otherwise the
    /// weights must not outnumber the samples, and must add up to more than
    /// zero and to no more than `u64::MAX`. The spin is drawn by
    /// [`draw_spin`]; the result is what
    /// [`RandomChoice::random_choice_with_spin`] returns for it.
    pub fn random_choice<'a, T>(samples: &'a [T], weights: &[u64], n: usize) -> (choices: Vec<
        &'a T,
    >)
        requires
            weights.len() > 0 && n > 0 ==> weights.len() <= samples.len(),
            weights.len() > 0 && n > 0 ==> 0 < total_weight(weights@) <= u64::MAX,
        ensures
            weights.len() == 0 ==> choices.len() == 0,
            weights.len() > 0 ==> choices.len() == n,
            weights.len() > 0 && n > 0 ==> drawn_selection_of(
                samples@,
                weights@,
                n as int,
                choices@,
            ),
    {
        if weights.len() == 0 || n == 0 {
            return Vec::new();
        }
        let total: u64 = sum_weights(weights);
        let spin: u64 = draw_spin(total);
        let choices = Self::random_choice_with_spin(samples, weights, n, spin);
        assert(selection_of(samples@, weights@, n as int, spin as int, choices@));
        choices
    }

    /// As [`RandomChoice::random_choice`], but checks the arguments instead
    /// of requiring them to be valid.
    ///
    /// With no weights or `n == 0` the result is empty. Otherwise the call
    /// fails with `InvalidInput` if there are more weights than samples,
    /// else with `InvalidWeights` if the weights add up to more than
    /// `u64::MAX`, else with `InvalidInput` if they add up to zero.
    pub fn try_random_choice<'a, T>(samples: &'a [T], weights: &[u64], n: usize) -> (outcome:
        Result<Vec<&'a T>, SamplingError>)
        ensures
            outcome is Err <==> selection_rejection(samples.len(), weights@, n) is Some,
            outcome is Err ==> selection_rejection(samples.len(), weights@, n) == Some(
                outcome->Err_0,
            ),
            outcome is Ok && weights.len() == 0 ==> (outcome->Ok_0).len() == 0,
            outcome is Ok && weights.len() > 0 ==> (outcome->Ok_0).len() == n,
            outcome is Ok && weights.len() > 0 && n > 0 ==> drawn_selection_of(
                samples@,
                weights@,
                n as int,
                (outcome->Ok_0)@,
            ),
    {
        if weights.len() == 0 || n == 0 {
            return Ok(Vec::new());
        }
        if weights.len() > samples.len() {
            return Err(SamplingError::InvalidInput);
        }
        match check_weights(weights) {
            Err(reason) => Err(reason),
            Ok(total) => {
                let spin: u64 = draw_spin(total);
                let choices = Self::random_choice_with_spin(samples, weights, n, spin);
                assert(selection_of(samples@, weights@, n as int, spin as int, choices@));
                Ok(choices)
            },
        }
    }

    /// Resamples the buffer in place after one random spin of the wheel:
    /// there are as many spokes as weights, and slot `k` receives a clone
    /// of the sample that stood under spoke `k`.
    ///
    /// With fewer than two weights the buffer is left as it is. Otherwise
    /// there must be as many samples as weights, and the weights must add up
    /// to more than zero and to no more than `u64::MAX`. The spin is drawn
    /// by [`draw_spin`]; the buffer becomes what
    /// [`RandomChoice::random_choice_in_place_with_spin`] makes of it.
    pub fn random_choice_in_place<T: Clone>(samples: &mut [T], weights: &[u64])
        requires
            weights.len() >= 2 ==> old(samples).len() == weights.len(),
            weights.len() >= 2 ==> 0 < total_weight(weights@) <= u64::MAX,
        ensures
            final(samples).len() == old(samples).len(),
            weights.len() < 2 ==> final(samples)@ == old(samples)@,
            weights.len() >= 2 ==> drawn_resampling_of(
                old(samples)@,
                weights@,
                final(samples)@,
            ),
    {
        if weights.len() < 2 {
            return ;
        }
        let total: u64 = sum_weights(weights);
        let spin: u64 = draw_spin(total);
        Self::random_choice_in_place_with_spin(samples, weights, spin);
        assert(resampling_of(old(samples)@, weights@, spin as int, samples@));
    }

    /// As [`RandomChoice::random_choice_in_place`], but checks the
    /// arguments instead of requiring them to be valid.
    ///
    /// With fewer than two weights the buffer is left as it is. Otherwise
    /// the call fails, leaving the buffer as it is, with `InvalidInput` if
    /// samples and weights differ in number, else with `InvalidWeights` if
    /// the weights add up to more than `u64::MAX`, else with `InvalidInput`
    /// if they add up to zero.
    pub fn try_random_choice_in_place<T: Clone>(samples: &mut [T], weights: &[u64]) -> (outcome:
        Result<(), SamplingError>)
        ensures
            outcome is Err <==> resampling_rejection(old(samples).len(), weights@) is Some,
            outcome is Err ==> resampling_rejection(old(samples).len(), weights@) == Some(
                outcome->Err_0,
            ),
            final(samples).len() == old(samples).len(),
            outcome is Err || weights.len() < 2 ==> final(samples)@ == old(samples)@,
            outcome is Ok && weights.len() >= 2 ==> drawn_resampling_of(
                old(samples)@,
                weights@,
                final(samples)@,
            ),
    {
        if weights.len() < 2 {
            return Ok(());
        }
        if weights.len() != samples.len() {
            return Err(SamplingError::InvalidInput);
        }
        match check_weights(weights) {
            Err(reason) => Err(reason),
            Ok(total) => {
                let spin: u64 = draw_spin(total);
                Self::random_choice_in_place_with_spin(samples, weights, spin);
                assert(resampling_of(old(samples)@, weights@, spin as int, samples@));
                Ok(())
            },
        }
    }

    /// Selects `n` samples with the given spin.
    ///
    /// The spin is the position of the first spoke on the wheel scaled by
    /// `n`; it ranges from 0 to the total weight. The `k`-th element of the
    /// result borrows the sample under spoke `k`. With no weights or
    /// `n == 0` the result is empty.
    pub fn random_choice_with_spin<'a, T>(
        samples: &'a [T],
        weights: &[u64],
        n: usize,
        spin: u64,
    ) -> (choices: Vec<&'a T>)
        requires
            weights.len() > 0 && n > 0 ==> weights.len() <= samples.len(),
            weights.len() > 0 && n > 0 ==> spin <= total_weight(weights@) <= u64::MAX,
        ensures
            weights.len() == 0 ==> choices.len() == 0,
            weights.len() > 0 ==> choices.len() == n,
            weights.len() > 0 && n > 0 ==> selection_of(
                samples@,
                weights@,
                n as int,
                spin as int,
                choices@,
            ),
    {
        if weights.len() == 0 || n == 0 {
            return Vec::new();
        }
        let total: u64 = sum_weights(weights);
        let mut i: usize = 0;
        let mut through: u64 = weights[0];
        let mut spoke: u128 = spin as u128;
        let mut choices: Vec<&'a T> = Vec::with_capacity(n);
        let mut k: usize = 0;
        assert(weight_before(weights@, 0) == 0);
        assert(spoke_at(weights@, spin as int, 0) == spin);
        while k < n
            invariant
                0 < n,
                k <= n,
                weights.len() <= samples.len(),
                total == total_weight(weights@),
                spin <= total,
                i < weights.len(),
                through == weight_before(weights@, i + 1),
                spoke == spoke_at(weights@, spin as int, k as int),
                i > 0 ==> arc_end(weights@, n as int, i - 1) < spoke,
                choices.len() == k,
                forall|j: int|
                    0 <= j < k ==> {
                        &&& 0 <= #[trigger] pick(weights@, n as int, spin as int, j)
                            < weights.len()
                        &&& *choices[j] == samples[pick(weights@, n as int, spin as int, j)]
                    },
            decreases n - k,
        {
            proof {
                lemma_spoke_on_wheel(weights@, n as int, spin as int, k as int);
                assert(spoke + total <= u128::MAX) by (nonlinear_arith)
                    requires
                        spoke <= n * total,
                        n <= u64::MAX,
                        total <= u64::MAX,
                ;
            }
            let at = advance_to(weights, n, spoke, i, through);
            i = at.0;
            through = at.1;
            choices.push(&samples[i]);
            spoke = spoke + total as u128;
            k = k + 1;
        }
        choices
    }

    /// Resamples the buffer in place with the given spin: afterwards slot
    /// `k` holds a clone of the sample that stood under spoke `k`.
    ///
    /// There are as many spokes as weights. Slots whose source lies ahead
    /// are filled on the way forward and those whose source lies behind on
    /// the way back, so every source is read before it is overwritten and
    /// no second buffer is needed.
    pub fn random_choice_in_place_with_spin<T: Clone>(
        samples: &mut [T],
        weights: &[u64],
        spin: u64,
    )
        requires
            weights.len() >= 2 ==> old(samples).len() == weights.len(),
            weights.len() >= 2 ==> spin <= total_weight(weights@) <= u64::MAX,
        ensures
            final(samples).len() == old(samples).len(),
            weights.len() < 2 ==> final(samples)@ == old(samples)@,
            weights.len() >= 2 ==> resampling_of(
                old(samples)@,
                weights@,
                spin as int,
                final(samples)@,
            ),
    {
        let n: usize = weights.len();
        if n < 2 {
            return ;
        }
        let ghost before = samples@;
        let total: u64 = sum_weights(weights);
        let mut j: usize = 0;
        let mut through: u64 = weights[0];
        let mut spoke: u128 = spin as u128;
        let mut k: usize = 0;
        assert(weight_before(weights@, 0) == 0);
        assert(spoke_at(weights@, spin as int, 0) == spin);
        while k < n
            invariant
                n == weights.len(),
                n == samples.len(),
                n == before.len(),
                k <= n,
                total == total_weight(weights@),
                spin <= total,
                j < n,
                through == weight_before(weights@, j + 1),
                spoke == spoke_at(weights@, spin as int, k as int),
                j > 0 ==> arc_end(weights@, n as int, j - 1) < spoke,
                forall|x: int|
                    0 <= x < k ==> 0 <= #[trigger] pick(weights@, n as int, spin as int, x) < n,
                forall|x: int|
                    0 <= x < n ==> if x < k && pick(weights@, n as int, spin as int, x) > x {
                        cloned(
                            before[pick(weights@, n as int, spin as int, x)],
                            #[trigger] samples[x],
                        )
                    } else {
                        samples[x] == before[x]
                    },
            decreases n - k,
        {
            proof {
                lemma_spoke_on_wheel(weights@, n as int, spin as int, k as int);
                assert(spoke + total <= u128::MAX) by (nonlinear_arith)
                    requires
                        spoke <= n * total,
                        n <= u64::MAX,
                        total <= u64::MAX,
                ;
            }
            let at = advance_to(weights, n, spoke, j, through);
            j = at.0;
            through = at.1;
            if j > k {
                let copy = samples[j].clone();
                samples[k] = copy;
            }
            spoke = spoke + total as u128;
            k = k + 1;
        }
        j = n - 1;
        through = total;
        while k > 0
            invariant
                n == weights.len(),
                n == samples.len(),
                n == before.len(),
                k <= n,
                total == total_weight(weights@),
                spin <= total,
                j < n,
                through == weight_before(weights@, j + 1),
                spoke == spoke_at(weights@, spin as int, k as int),
                arc_end(weights@, n as int, j as int) >= spoke - total,
                forall|x: int|
                    0 <= x < n ==> 0 <= #[trigger] pick(weights@, n as int, spin as int, x) < n,
                forall|x: int|
                    0 <= x < n ==> if x >= k || pick(weights@, n as int, spin as int, x) > x {
                        cloned(
                            before[pick(weights@, n as int, spin as int, x)],
                            #[trigger] samples[x],
                        )
                    } else {
                        samples[x] == before[x]
                    },
            decreases k,
        {
            k = k - 1;
            proof {
                lemma_spoke_on_wheel(weights@, n as int, spin as int, k as int);
            }
            spoke = spoke - total as u128;
            let at = retreat_to(weights, n, spoke, j, through);
            j = at.0;
            through = at.1;
            if j < k {
                proof {
                    lemma_pick_monotone(weights@, n as int, spin as int, j as int, k as int);
                }
                let copy = samples[j].clone();
                samples[k] = copy;
            }
        }
    }
}

} // verus!
