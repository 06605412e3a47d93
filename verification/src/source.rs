//! The random source: one spin per call.

use vstd::prelude::*;

verus! {

/// Draws an integer from `0` up to but not including `bound`, uniformly,
/// from the generator of the calling thread.
///
/// Trusted: the body calls `rand::Rng::gen_range(0, bound)` on
/// `rand::thread_rng()`. For the unsigned integer types that method returns
/// a value of the half-open range `[low, high)` and panics when
/// `low >= high`, which the precondition rules out. Nothing more is claimed
/// of the value: two draws with the same bound may differ. The generator
/// itself panics when it is seeded, at a thread's first use and after
/// every 32 KiB drawn, and the system has no entropy to give; no
/// precondition can rule that out.
#[verifier::external_body]
fn draw_below(bound: u64) -> (drawn: u64)
    requires
        bound > 0,
    ensures
        drawn < bound,
{
    rand::Rng::gen_range(&mut rand::thread_rng(), 0, bound)
}

/// Draws the spin for a wheel of the given total weight: an integer from
/// `1` to `total`, each equally likely.
///
/// One integer below `total` is drawn, and the spin is what
/// [`spin_from_draw`] makes of it. Which integer is drawn is left to the
/// generator, so nothing but the range is promised of the spin.
pub fn draw_spin(total: u64) -> (spin: u64)
    requires
        total > 0,
    ensures
        1 <= spin <= total,
        exists|drawn: int| 0 <= drawn < total && spin == #[trigger] spin_of_draw(drawn),
{
    let drawn: u64 = draw_below(total);
    let spin: u64 = spin_from_draw(drawn, total);
    assert(spin == spin_of_draw(drawn as int));
    spin
}

/// The spin that a draw stands for.
///
/// On the wheel scaled by the number of spokes every arc ends on an
/// integer, so a real spin strictly between `t` and `t + 1` selects what
/// the integer spin `t + 1` selects. The draw `t` stands for those real
/// spins, and a uniform draw below the total weight for a uniform real spin
/// below the spoke gap.
pub open spec fn spin_of_draw(drawn: int) -> int {
    drawn + 1
}

/// Turns a draw below the total weight into the spin it stands for.
pub fn spin_from_draw(drawn: u64, total: u64) -> (spin: u64)
    requires
        drawn < total,
    ensures
        spin == spin_of_draw(drawn as int),
        1 <= spin <= total,
{
    drawn + 1
}

} // verus!
