//! How the water moves from step to step, and what is read off it, in whole steps of the exact
//! numbers.

use vstd::prelude::*;

use crate::fixed::{saturated, Fixed};
use crate::ripple_sim::{
    absorption, depth_in, laplacian, on_rim, peak_curvature, peak_height, sim_c2, sim_damp, stepped,
    stepped_cell,
};
use crate::scalar::{int_of, Scalar};

verus! {

/// Whether every height of a field is within sixteen yards.
pub open spec fn low(h: Seq<Fixed>) -> bool {
    &&& h.len() == 36864
    &&& forall|k: int|
        0 <= k < 36864 ==> -0x10_0000_0000 <= (#[trigger] h[k]).raw <= 0x10_0000_0000
}

/// How much higher the four cells beside a cell stand than it does, together. A row is a hundred and
/// ninety-two cells.
pub open spec fn overlooked(h: Seq<Fixed>, k: int) -> int {
    (h[k - 1].raw - h[k].raw) + (h[k + 1].raw - h[k].raw) + (h[k - 192].raw - h[k].raw) + (h[k
        + 192].raw - h[k].raw)
}

/// Whether a cell would come to stand at `w` in open water: where its motion carries it, drawn by a
/// thousandth of how far its neighbours stand over it, and then less forty-five parts in ten thousand;
/// to within sixty-four of the numbers' steps.
pub open spec fn comes_to(h: Seq<Fixed>, prev: Seq<Fixed>, k: int, w: int) -> bool {
    -640_000_000 <= 10_000_000 * w - 9955 * (1000 * (h[k].raw + (h[k].raw - prev[k].raw))
        + overlooked(h, k)) <= 640_000_000
}

/// Whether a cell has a neighbour on every side.
pub open spec fn has_neighbours(k: int) -> bool {
    &&& 0 <= k < 36864
    &&& 1 <= k % 192 <= 190
    &&& 1 <= k / 192 <= 190
}

/// The cells with a neighbour on every side are those off the rim.
pub proof fn lemma_has_neighbours(k: int)
    requires
        0 <= k < 36864,
    ensures
        has_neighbours(k) <==> !on_rim(k),
        has_neighbours(k) ==> 192 < k < 36671 && depth_in(k) >= 1,
{
}

/// Water follows its neighbours: a cell goes on as it moved, drawn towards the four beside it, and
/// loses a little; a cell near the edge of the window keeps of that only its depth's share, and one on
/// the edge is at rest.
#[verifier::spinoff_prover]
pub proof fn law_water_follows_its_neighbours(h: Seq<Fixed>, prev: Seq<Fixed>, k: int)
    requires
        low(h),
        low(prev),
        0 <= k < 36864,
    ensures
        has_neighbours(k) ==> exists|w: int|
            {
                &&& #[trigger] comes_to(h, prev, k, w)
                &&& stepped(h, prev)[k].raw * 0x1_0000_0000 <= w * absorption::<Fixed>(depth_in(k)).raw
                &&& w * absorption::<Fixed>(depth_in(k)).raw < (stepped(h, prev)[k].raw + 1)
                    * 0x1_0000_0000
                &&& 14 <= depth_in(k) ==> stepped(h, prev)[k].raw == w
            },
        !has_neighbours(k) ==> stepped(h, prev)[k].raw == 0,
{
    lemma_has_neighbours(k);
    assert(stepped(h, prev)[k] == stepped_cell(h, prev, k));
    assert(int_of::<Fixed>(0).raw == 0);
    if has_neighbours(k) {
        let w = lemma_open_step(h, prev, k);
        lemma_kept(w, k);
    }
}

proof fn lemma_open_step(h: Seq<Fixed>, prev: Seq<Fixed>, k: int) -> (w: Fixed)
    requires
        low(h),
        low(prev),
        has_neighbours(k),
        192 < k < 36671,
    ensures
        w == (int_of::<Fixed>(2) * h[k] - prev[k] + sim_c2::<Fixed>() * laplacian(h, k)) * sim_damp::<
            Fixed,
        >(),
        comes_to(h, prev, k, w.raw as int),
        -0x80_0000_0000 <= w.raw <= 0x80_0000_0000,
{
    let (a, b, c, d, x, y) = (h[k - 1], h[k + 1], h[k - 192], h[k + 192], h[k], prev[k]);
    lemma_bend(a, b, c, d, x);
    assert(laplacian(h, k) == a + b + c + d - int_of::<Fixed>(4) * x);
    lemma_open(x, y, laplacian(h, k));
    (int_of::<Fixed>(2) * x - y + sim_c2::<Fixed>() * laplacian(h, k)) * sim_damp::<Fixed>()
}

/// The bend in whole steps.
proof fn lemma_bend(a: Fixed, b: Fixed, c: Fixed, d: Fixed, x: Fixed)
    requires
        -0x10_0000_0000 <= a.raw <= 0x10_0000_0000,
        -0x10_0000_0000 <= b.raw <= 0x10_0000_0000,
        -0x10_0000_0000 <= c.raw <= 0x10_0000_0000,
        -0x10_0000_0000 <= d.raw <= 0x10_0000_0000,
        -0x10_0000_0000 <= x.raw <= 0x10_0000_0000,
    ensures
        (a + b + c + d - int_of::<Fixed>(4) * x).raw == (a.raw - x.raw) + (b.raw - x.raw) + (c.raw
            - x.raw) + (d.raw - x.raw),
{
    let four = int_of::<Fixed>(4);
    assert(four.raw == 0x4_0000_0000);
    let p = four.raw * x.raw;
    assert(p == 0x4_0000_0000 * x.raw) by (nonlinear_arith)
        requires
            p == four.raw * x.raw,
            four.raw == 0x4_0000_0000,
    ;
    assert(p / 0x1_0000_0000 == 4 * x.raw);
    assert((four * x).raw == 4 * x.raw);
    assert((a + b + c + d).raw == a.raw + b.raw + c.raw + d.raw);
}

#[verifier::spinoff_prover]
proof fn lemma_open(x: Fixed, y: Fixed, s: Fixed)
    requires
        -0x10_0000_0000 <= x.raw <= 0x10_0000_0000,
        -0x10_0000_0000 <= y.raw <= 0x10_0000_0000,
        -0x80_0000_0000 <= s.raw <= 0x80_0000_0000,
    ensures
        ({
            let w = ((int_of::<Fixed>(2) * x - y + sim_c2::<Fixed>() * s) * sim_damp::<Fixed>()).raw;
            &&& -640_000_000 <= 10_000_000 * w - 9955 * (1000 * (x.raw + (x.raw - y.raw)) + s.raw)
            &&& 10_000_000 * w - 9955 * (1000 * (x.raw + (x.raw - y.raw)) + s.raw) <= 640_000_000
            &&& -0x80_0000_0000 <= w <= 0x80_0000_0000
        }),
{
    let (two, pull, damp) = (int_of::<Fixed>(2), sim_c2::<Fixed>(), sim_damp::<Fixed>());
    assert(two.raw == 0x2_0000_0000);
    assert(pull.raw == 4294967);
    assert(damp.raw == 4275639943);
    let p = two.raw * x.raw;
    assert(p == 0x2_0000_0000 * x.raw) by (nonlinear_arith)
        requires
            p == two.raw * x.raw,
            two.raw == 0x2_0000_0000,
    ;
    assert(p / 0x1_0000_0000 == 2 * x.raw);
    assert((two * x).raw == 2 * x.raw);
    let q = pull.raw * s.raw;
    assert(q == 4294967 * s.raw) by (nonlinear_arith)
        requires
            q == pull.raw * s.raw,
            pull.raw == 4294967,
    ;
    let drawn = pull * s;
    assert(drawn.raw == (4294967 * s.raw) / 0x1_0000_0000);
    let free = two * x - y + drawn;
    assert(free.raw == 2 * x.raw - y.raw + drawn.raw);
    let r = free.raw * damp.raw;
    assert(r == 4275639943 * free.raw) by (nonlinear_arith)
        requires
            r == free.raw * damp.raw,
            damp.raw == 4275639943,
    ;
    assert((free * damp).raw == (4275639943 * free.raw) / 0x1_0000_0000);
}

proof fn lemma_kept(w: Fixed, k: int)
    requires
        -0x80_0000_0000 <= w.raw <= 0x80_0000_0000,
        1 <= depth_in(k),
    ensures
        ({
            let keep = absorption::<Fixed>(depth_in(k));
            &&& (w * keep).raw * 0x1_0000_0000 <= w.raw * keep.raw
            &&& w.raw * keep.raw < ((w * keep).raw + 1) * 0x1_0000_0000
            &&& 14 <= depth_in(k) ==> (w * keep).raw == w.raw
        }),
{
    let keep = absorption::<Fixed>(depth_in(k));
    crate::ripple_sim::law_the_rim_absorbs_gradually(depth_in(k), depth_in(k));
    assert(int_of::<Fixed>(1).raw == 0x1_0000_0000);
    assert(Fixed::frac(72, 100).raw == 3092376453);
    let p = w.raw * keep.raw;
    assert(-0x80_0000_0000_0000_0000 <= p <= 0x80_0000_0000_0000_0000) by (nonlinear_arith)
        requires
            p == w.raw * keep.raw,
            -0x80_0000_0000 <= w.raw <= 0x80_0000_0000,
            0 <= keep.raw <= 0x1_0000_0000,
    ;
    assert(w * keep == saturated(p / 0x1_0000_0000));
    if 14 <= depth_in(k) {
        assert(p == w.raw * 0x1_0000_0000) by (nonlinear_arith)
            requires
                p == w.raw * keep.raw,
                keep.raw == 0x1_0000_0000,
        ;
    }
}

/// A cell near the edge of the window keeps seventy-two hundredths at the outermost that moves, and a
/// thirteenth of the other twenty-eight more for each cell further in, but for what the numbers round;
/// from the fourteenth on it keeps all.
pub proof fn law_the_band_takes_a_thirteenth_less_each_cell(d: int)
    requires
        1 <= d <= 96,
    ensures
        d < 14 ==> 0 <= (936 + 28 * (d - 1)) * 0x1_0000_0000 - 1300 * absorption::<Fixed>(d).raw
            <= 4000,
        14 <= d ==> absorption::<Fixed>(d).raw == 0x1_0000_0000,
{
    assert(int_of::<Fixed>(1).raw == 0x1_0000_0000);
    if d < 14 {
        let (least, rise) = (Fixed::frac(72, 100), Fixed::frac(28, 100));
        assert(least.raw == 3092376453 && rise.raw == 1202590842);
        assert(int_of::<Fixed>(d - 1).raw == (d - 1) * 0x1_0000_0000);
        assert(int_of::<Fixed>(13).raw == 0xd_0000_0000);
        let share = int_of::<Fixed>(d - 1) / int_of::<Fixed>(13);
        let n = (d - 1) * 0x1_0000_0000;
        assert((n * 0x1_0000_0000) / 0xd_0000_0000 == n / 13);
        assert(share.raw == n / 13);
        let p = rise.raw * share.raw;
        assert(p == 1202590842 * share.raw) by (nonlinear_arith)
            requires
                p == rise.raw * share.raw,
                rise.raw == 1202590842,
        ;
        assert((rise * share).raw == (1202590842 * share.raw) / 0x1_0000_0000);
    }
}

/// The size of a whole number.
pub open spec fn magnitude(n: int) -> int {
    if n < 0 {
        -n
    } else {
        n
    }
}

/// The peak is the greatest height off the rim, up or down: no such cell is higher or deeper, and one
/// is as high or as deep, where any is off the level.
pub proof fn law_the_peak_is_the_greatest_height(h: Seq<Fixed>, n: int)
    requires
        low(h),
        0 <= n <= 36864,
    ensures
        0 <= peak_height(h, n).raw,
        forall|k: int|
            0 <= k < n && has_neighbours(k) ==> magnitude((#[trigger] h[k]).raw as int) <= peak_height(
                h,
                n,
            ).raw,
        peak_height(h, n).raw == 0 || exists|k: int|
            0 <= k < n && has_neighbours(k) && magnitude((#[trigger] h[k]).raw as int) == peak_height(
                h,
                n,
            ).raw,
    decreases n,
{
    assert(int_of::<Fixed>(0).raw == 0);
    if n > 0 {
        law_the_peak_is_the_greatest_height(h, n - 1);
        lemma_has_neighbours(n - 1);
        let (before, top) = (peak_height(h, n - 1), peak_height(h, n));
        if has_neighbours(n - 1) {
            assert(h[n - 1].magnitude().raw == magnitude(h[n - 1].raw as int));
        }
        if top == before {
            if top.raw != 0 {
                let k = choose|k: int|
                    0 <= k < n - 1 && has_neighbours(k) && magnitude((#[trigger] h[k]).raw as int)
                        == before.raw;
                assert(magnitude(h[k].raw as int) == top.raw);
            }
        } else {
            assert(magnitude(h[n - 1].raw as int) == top.raw);
        }
    }
}

/// The sharpest bend is the most that a cell off the rim is overlooked by its neighbours, or overlooks
/// them: no such cell more, and one as much, where any is.
pub proof fn law_the_sharpest_bend_is_the_most_overlooked(h: Seq<Fixed>, n: int)
    requires
        low(h),
        0 <= n <= 36864,
    ensures
        0 <= peak_curvature(h, n).raw,
        forall|k: int|
            0 <= k < n && has_neighbours(k) ==> magnitude(#[trigger] overlooked(h, k))
                <= peak_curvature(h, n).raw,
        peak_curvature(h, n).raw == 0 || exists|k: int|
            0 <= k < n && has_neighbours(k) && magnitude(#[trigger] overlooked(h, k))
                == peak_curvature(h, n).raw,
    decreases n,
{
    assert(int_of::<Fixed>(0).raw == 0);
    if n > 0 {
        law_the_sharpest_bend_is_the_most_overlooked(h, n - 1);
        lemma_has_neighbours(n - 1);
        let (before, top) = (peak_curvature(h, n - 1), peak_curvature(h, n));
        if has_neighbours(n - 1) {
            lemma_bend(h[n - 2], h[n], h[n - 193], h[n + 191], h[n - 1]);
            assert(laplacian(h, n - 1).raw == overlooked(h, n - 1));
            assert(laplacian(h, n - 1).magnitude().raw == magnitude(overlooked(h, n - 1)));
        }
        if top == before {
            if top.raw != 0 {
                let k = choose|k: int|
                    0 <= k < n - 1 && has_neighbours(k) && magnitude(#[trigger] overlooked(h, k))
                        == before.raw;
                assert(magnitude(overlooked(h, k)) == top.raw);
            }
        } else {
            assert(magnitude(overlooked(h, n - 1)) == top.raw);
        }
    }
}

} // verus!
