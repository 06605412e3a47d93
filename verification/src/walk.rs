//! The walk over arbitrary ordered keys.
//!
//! Where the arc ends and the spokes come from arithmetic that is not
//! integral, a caller hands them over as keys that keep their order. The
//! walk then does what the wheel does: it moves forward over the arc ends,
//! never back, and stops for each spoke at the first arc end that is not
//! below it.

use crate::error::SamplingError;
use vstd::prelude::*;

verus! {

/// The first position at or after `from` whose arc end is at least
/// `target`, or the number of arc ends if there is none.
pub open spec fn first_at_least(arc_ends: Seq<u64>, target: u64, from: int) -> int
    decreases arc_ends.len() - from,
{
    if from >= arc_ends.len() {
        arc_ends.len() as int
    } else if arc_ends[from] >= target {
        from
    } else {
        first_at_least(arc_ends, target, from + 1)
    }
}

/// Where the walk stands after spoke `k`: it starts at position 0 and
/// resumes, for each spoke, where it stopped for the one before.
pub open spec fn walk_pick(arc_ends: Seq<u64>, spokes: Seq<u64>, k: int) -> int
    recommends
        k < spokes.len(),
    decreases k + 1,
{
    if k < 0 {
        0
    } else {
        first_at_least(arc_ends, spokes[k], walk_pick(arc_ends, spokes, k - 1))
    }
}

/// Where the walk stands after each spoke, in spoke order.
pub open spec fn walk_picks(arc_ends: Seq<u64>, spokes: Seq<u64>) -> Seq<int> {
    Seq::new(spokes.len(), |k: int| walk_pick(arc_ends, spokes, k))
}

/// The picks as mathematical integers.
pub open spec fn positions(picks: Seq<usize>) -> Seq<int> {
    Seq::new(picks.len(), |k: int| picks[k] as int)
}

/// The walk finds an arc end for every spoke.
pub open spec fn walk_completes(arc_ends: Seq<u64>, spokes: Seq<u64>) -> bool {
    forall|k: int| 0 <= k < spokes.len() ==> #[trigger] walk_pick(arc_ends, spokes, k) < arc_ends.len()
}

/// The search result lies between its start and the number of arc ends.
pub proof fn lemma_first_at_least_bounds(arc_ends: Seq<u64>, target: u64, from: int)
    requires
        0 <= from <= arc_ends.len(),
    ensures
        from <= first_at_least(arc_ends, target, from) <= arc_ends.len(),
    decreases arc_ends.len() - from,
{
    if from < arc_ends.len() && arc_ends[from] < target {
        lemma_first_at_least_bounds(arc_ends, target, from + 1);
    }
}

/// The walk never moves back and never leaves the arc ends by more than
/// one position.
pub proof fn lemma_walk_pick_monotone(arc_ends: Seq<u64>, spokes: Seq<u64>, a: int, b: int)
    requires
        -1 <= a <= b < spokes.len(),
    ensures
        0 <= walk_pick(arc_ends, spokes, a) <= walk_pick(arc_ends, spokes, b) <= arc_ends.len(),
    decreases b + 1,
{
    if b >= 0 {
        lemma_walk_pick_monotone(arc_ends, spokes, -1, b - 1);
        lemma_first_at_least_bounds(arc_ends, spokes[b], walk_pick(arc_ends, spokes, b - 1));
        if a < b {
            lemma_walk_pick_monotone(arc_ends, spokes, a, b - 1);
        }
    }
}

/// Moves forward from `from` to the first arc end that is at least `target`.
fn seek(arc_ends: &[u64], target: u64, from: usize) -> (at: usize)
    requires
        from <= arc_ends.len(),
    ensures
        at == first_at_least(arc_ends@, target, from as int),
        from <= at <= arc_ends.len(),
{
    let mut i: usize = from;
    while i < arc_ends.len() && arc_ends[i] < target
        invariant
            from <= i <= arc_ends.len(),
            first_at_least(arc_ends@, target, from as int) == first_at_least(
                arc_ends@,
                target,
                i as int,
            ),
        decreases arc_ends.len() - i,
    {
        i = i + 1;
    }
    i
}

/// Walks the arc ends once and returns, for each spoke in turn, the
/// position at which the walk stops for it.
///
/// Fails with `InvalidInput` if the walk runs off the arc ends before every
/// spoke has found one.
pub fn select_by_walk(arc_ends: &[u64], spokes: &[u64]) -> (outcome: Result<
    Vec<usize>,
    SamplingError,
>)
    ensures
        outcome is Ok <==> walk_completes(arc_ends@, spokes@),
        outcome is Ok ==> (outcome->Ok_0).len() == spokes.len(),
        outcome is Ok ==> forall|k: int|
            0 <= k < spokes.len() ==> #[trigger] (outcome->Ok_0)[k] == walk_pick(
                arc_ends@,
                spokes@,
                k,
            ),
        outcome is Err ==> outcome->Err_0 == SamplingError::InvalidInput,
{
    let mut picks: Vec<usize> = Vec::with_capacity(spokes.len());
    let mut i: usize = 0;
    let mut k: usize = 0;
    while k < spokes.len()
        invariant
            k <= spokes.len(),
            i <= arc_ends.len(),
            i == walk_pick(arc_ends@, spokes@, k - 1),
            picks.len() == k,
            forall|j: int|
                0 <= j < k ==> #[trigger] picks[j] == walk_pick(arc_ends@, spokes@, j)
                    && picks[j] < arc_ends.len(),
        decreases spokes.len() - k,
    {
        i = seek(arc_ends, spokes[k], i);
        if i >= arc_ends.len() {
            assert(walk_pick(arc_ends@, spokes@, k as int) == arc_ends.len());
            return Err(SamplingError::InvalidInput);
        }
        picks.push(i);
        k = k + 1;
    }
    assert forall|j: int| 0 <= j < spokes.len() implies #[trigger] walk_pick(
        arc_ends@,
        spokes@,
        j,
    ) < arc_ends.len() by {
        assert(picks[j] == walk_pick(arc_ends@, spokes@, j));
    }
    Ok(picks)
}

/// The picks are sources for the first slots of a buffer of `slots`
/// samples: none lies outside the buffer and none lies before its
/// predecessor.
pub open spec fn picks_fit(picks: Seq<usize>, slots: int) -> bool {
    &&& picks.len() <= slots
    &&& forall|k: int| 0 <= k < picks.len() ==> #[trigger] picks[k] < slots
    &&& forall|a: int, b: int|
        0 <= a <= b < picks.len() ==> #[trigger] picks[a] <= #[trigger] picks[b]
}

/// `after` holds in slot `k` a clone of the sample that `before` held at
/// `picks[k]`, and beyond the picks what `before` held there.
pub open spec fn rearrangement_of<T: Clone>(before: Seq<T>, picks: Seq<int>, after: Seq<T>) -> bool {
    &&& after.len() == before.len()
    &&& forall|k: int|
        #![trigger after[k]]
        0 <= k < after.len() ==> if k < picks.len() {
            cloned(before[picks[k]], after[k])
        } else {
            after[k] == before[k]
        }
}

/// Overwrites slot `k` of the buffer with a clone of the sample that stood
/// at `picks[k]` before the call, for every pick.
///
/// Slots whose source lies ahead are filled on the way forward and those
/// whose source lies behind on the way back, so every source is read before
/// it is overwritten.
pub fn rearrange_in_place<T: Clone>(samples: &mut [T], picks: &[usize])
    requires
        picks_fit(picks@, old(samples).len() as int),
    ensures
        rearrangement_of(old(samples)@, positions(picks@), final(samples)@),
{
    let n: usize = picks.len();
    let ghost before = samples@;
    let mut k: usize = 0;
    while k < n
        invariant
            n == picks.len(),
            k <= n,
            samples.len() == before.len(),
            picks_fit(picks@, before.len() as int),
            forall|x: int|
                0 <= x < before.len() ==> if x < k && picks[x] > x {
                    cloned(before[picks[x] as int], #[trigger] samples[x])
                } else {
                    samples[x] == before[x]
                },
        decreases n - k,
    {
        let j: usize = picks[k];
        if j > k {
            let copy = samples[j].clone();
            samples[k] = copy;
        }
        k = k + 1;
    }
    while k > 0
        invariant
            n == picks.len(),
            k <= n,
            samples.len() == before.len(),
            picks_fit(picks@, before.len() as int),
            forall|x: int|
                0 <= x < before.len() ==> if x < n && (x >= k || picks[x] > x) {
                    cloned(before[picks[x] as int], #[trigger] samples[x])
                } else {
                    samples[x] == before[x]
                },
        decreases k,
    {
        k = k - 1;
        let j: usize = picks[k];
        if j < k {
            assert(picks[j as int] <= picks[k as int]);
            let copy = samples[j].clone();
            samples[k] = copy;
        }
    }
}

/// The walk finds an arc end for every spoke, and there is a slot for
/// every spoke and a sample at every pick.
pub open spec fn walk_fits(arc_ends: Seq<u64>, spokes: Seq<u64>, slots: int) -> bool {
    &&& walk_completes(arc_ends, spokes)
    &&& spokes.len() <= slots
    &&& forall|k: int| 0 <= k < spokes.len() ==> #[trigger] walk_pick(arc_ends, spokes, k) < slots
}

/// Resamples the buffer in place by one walk: slot `k` receives a clone of
/// the sample that stood where the walk stops for spoke `k`.
///
/// Fails with `InvalidInput`, leaving the buffer as it is, if the walk runs
/// off the arc ends, if there are more spokes than samples, or if the walk
/// stops where there is no sample.
pub fn resample_by_walk<T: Clone>(samples: &mut [T], arc_ends: &[u64], spokes: &[u64]) -> (outcome:
    Result<(), SamplingError>)
    ensures
        outcome is Ok <==> walk_fits(arc_ends@, spokes@, old(samples).len() as int),
        outcome is Ok ==> rearrangement_of(
            old(samples)@,
            walk_picks(arc_ends@, spokes@),
            final(samples)@,
        ),
        outcome is Err ==> outcome->Err_0 == SamplingError::InvalidInput,
        outcome is Err ==> final(samples)@ == old(samples)@,
{
    let picks = match select_by_walk(arc_ends, spokes) {
        Ok(picks) => picks,
        Err(reason) => {
            return Err(reason);
        },
    };
    let n: usize = picks.len();
    if n > samples.len() {
        return Err(SamplingError::InvalidInput);
    }
    if n > 0 && picks[n - 1] >= samples.len() {
        return Err(SamplingError::InvalidInput);
    }
    proof {
        assert forall|a: int, b: int| 0 <= a <= b < picks.len() implies #[trigger] picks[a]
            <= #[trigger] picks[b] by {
            lemma_walk_pick_monotone(arc_ends@, spokes@, a, b);
        }
        assert forall|k: int| 0 <= k < spokes.len() implies #[trigger] walk_pick(
            arc_ends@,
            spokes@,
            k,
        ) < samples.len() by {
            assert(picks[k] <= picks[n - 1]);
        }
        assert(positions(picks@) =~= walk_picks(arc_ends@, spokes@));
    }
    rearrange_in_place(samples, picks.as_slice());
    Ok(())
}

} // verus!
