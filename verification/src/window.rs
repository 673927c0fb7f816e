//! Where the simulation's window is in the world, and how it spends its time, in whole steps of the
//! exact numbers.

use vstd::prelude::*;

use crate::fixed::Fixed;
use crate::geometry::Vec2;
use crate::ripple_sim::{
    corner_for, corner_of, lemma_time_after_first, on_lattice, sim_cell, steps_owed, time_after,
    time_left, RippleSim, SIM_MAX_STEPS,
};
use crate::scalar::{int_of, Scalar};
use crate::wake::carried;

verus! {

/// A quarter of a yard is a cell, exactly.
proof fn lemma_cell()
    ensures
        sim_cell::<Fixed>().raw == 0x4000_0000,
{
    assert(int_of::<Fixed>(48).raw == 0x30_0000_0000);
    assert(int_of::<Fixed>(192).raw == 0xc0_0000_0000);
}

/// The window is centred on what it follows: its middle, ninety six cells of a quarter yard from its
/// corner, is within half a cell of the coordinate.
pub proof fn law_the_window_is_centred(c: Fixed)
    requires
        -0x1000_0000_0000_0000 <= c.raw <= 0x1000_0000_0000_0000,
    ensures
        -0x2000_0000 <= (corner_for(c) + 96) * 0x4000_0000 - c.raw <= 0x2000_0000,
        c.raw >= 0 ==> -0x2000_0000 < (corner_for(c) + 96) * 0x4000_0000 - c.raw,
        c.raw < 0 ==> (corner_for(c) + 96) * 0x4000_0000 - c.raw < 0x2000_0000,
{
    lemma_cell();
    let q = c / sim_cell::<Fixed>();
    assert((c.raw * 0x1_0000_0000) / 0x4000_0000 == 4 * c.raw);
    assert(q.raw == 4 * c.raw);
    let n = if q.raw < 0 {
        -((-q.raw + 0x8000_0000) / 0x1_0000_0000)
    } else {
        (q.raw + 0x8000_0000) / 0x1_0000_0000
    };
    assert(-0x4000_0001 <= n <= 0x4000_0001);
    assert(q.rounded().raw == n * 0x1_0000_0000);
    assert(q.rounded().whole() == n) by {
        if n < 0 {
            assert((-(n * 0x1_0000_0000)) / 0x1_0000_0000 == -n);
        } else {
            assert((n * 0x1_0000_0000) / 0x1_0000_0000 == n);
        }
    }
}

/// The window's corner is its origin's quarter yards, each axis its own.
pub proof fn law_the_corner_is_the_origins(ox: int, oy: int)
    requires
        i32::MIN <= ox <= i32::MAX,
        i32::MIN <= oy <= i32::MAX,
    ensures
        corner_of::<Fixed>(ox, oy).x.raw == ox * 0x4000_0000,
        corner_of::<Fixed>(ox, oy).y.raw == oy * 0x4000_0000,
{
    lemma_cell();
    assert(int_of::<Fixed>(ox).raw == ox * 0x1_0000_0000);
    assert(int_of::<Fixed>(oy).raw == oy * 0x1_0000_0000);
    assert((ox * 0x1_0000_0000 * 0x4000_0000) / 0x1_0000_0000 == ox * 0x4000_0000);
    assert((oy * 0x1_0000_0000 * 0x4000_0000) / 0x1_0000_0000 == oy * 0x4000_0000);
}

/// Carrying the window leaves the water where it is in the world: a cell of the world that is in the
/// window before and after has the height it had, and one that comes into it is at rest. A window not
/// yet placed is set down as it is.
pub proof fn law_a_carried_window_leaves_the_water_alone(
    sim: RippleSim<Fixed>,
    f: Seq<Fixed>,
    c: Vec2<Fixed>,
    wx: int,
    wy: int,
)
    requires
        on_lattice(wx - corner_for(c.x), wy - corner_for(c.y)),
    ensures
        ({
            let (ox, oy) = (sim.origin_x as int, sim.origin_y as int);
            let (nx, ny) = (corner_for(c.x), corner_for(c.y));
            let now = carried(sim, f, c)[192 * (wy - ny) + (wx - nx)];
            &&& sim.placed && on_lattice(wx - ox, wy - oy) ==> now == f[192 * (wy - oy) + (wx - ox)]
            &&& sim.placed && !on_lattice(wx - ox, wy - oy) ==> now.raw == 0
            &&& !sim.placed ==> carried(sim, f, c) == f
        }),
{
    let (nx, ny) = (corner_for(c.x), corner_for(c.y));
    let k = 192 * (wy - ny) + (wx - nx);
    assert(k % 192 == wx - nx && k / 192 == wy - ny);
    assert(0 <= k < 36864);
    assert(int_of::<Fixed>(0).raw == 0);
}

/// Time is spent in whole ninetieths of a second, four of them at most: as many as there are in the time
/// there is; and what fewer than four leave over is kept, while what four leave is forgotten.
pub proof fn law_time_is_spent_in_ninetieths(time: Fixed)
    requires
        -0x1000_0000_0000_0000 <= time.raw,
    ensures
        ({
            let n = steps_owed(time, SIM_MAX_STEPS as nat);
            &&& n <= 4
            &&& n < 4 ==> time.raw < (n + 1) * 47721858
            &&& n > 0 ==> n * 47721858 <= time.raw
            &&& n < 4 ==> time_left(time).raw == time.raw - n * 47721858
            &&& n == 4 ==> time_left(time).raw == 0
        }),
{
    lemma_spent(time, 4);
    assert(int_of::<Fixed>(0).raw == 0);
}

proof fn lemma_spent(time: Fixed, budget: nat)
    requires
        -0x1000_0000_0000_0000 <= time.raw,
    ensures
        ({
            let n = steps_owed(time, budget);
            &&& n <= budget
            &&& n < budget ==> time.raw < (n + 1) * 47721858
            &&& n > 0 ==> n * 47721858 <= time.raw
            &&& time_after(time, n).raw == time.raw - n * 47721858
        }),
    decreases budget,
{
    assert(Fixed::frac(1, 90).raw == 47721858);
    if budget > 0 && time.raw >= 47721858 {
        let rest = time - Fixed::frac(1, 90);
        lemma_spent(rest, (budget - 1) as nat);
        let n = steps_owed(rest, (budget - 1) as nat);
        lemma_time_after_first(time, n);
        assert(rest.raw == time.raw - 47721858);
        assert(steps_owed(time, budget) == 1 + n);
        assert(time_after(time, n + 1) == time_after(rest, n));
    } else {
        assert(steps_owed(time, budget) == 0);
        assert(time_after(time, 0) == time);
    }
}

} // verus!
