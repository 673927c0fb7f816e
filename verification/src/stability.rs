//! How high the waves can run: a field left alone that starts within a bound stays within a bound,
//! however long it runs on.
//!
//! The energy of a bounded field is bounded, a step adds to it no more than the numbers round, and
//! no height can outgrow it.

use vstd::prelude::*;

use crate::energy::{
    energy_of, law_a_bounded_field_has_little_energy, law_energy_does_not_grow,
    law_no_height_outgrows_the_energy, lemma_small_multiples, rim_rests, within, WIDEST,
};
use crate::fixed::{saturated, Fixed};
use crate::ripple_sim::{
    absorption, depth_in, laplacian, law_the_rim_absorbs_gradually, on_rim, sim_c2, sim_damp,
    stepped, stepped_cell, stepped_times, SIM_AREA, SIM_CELLS,
};
use crate::scalar::{int_of, Scalar};

verus! {

/// The energy a field may have come to after `n` steps, `q` being the square of its bound.
spec fn allowance(q: int, n: int) -> int {
    (5 * q + 1010 * n) * 36864
}

/// A height no energy within the allowance can outgrow.
proof fn lemma_allowance(square: int, e: real, q: int, n: int)
    requires
        (452 as real) * (square as real) <= (200000 as real) * e,
        e <= allowance(q, n) as real,
        0 <= n,
        0 <= q,
    ensures
        square <= 100_000_000 * (q + 200 * n),
{
    let most = allowance(q, n);
    assert((452 * square) as real <= (200000 * most) as real);
    assert(452 * square <= 200000 * most);
}

/// A number whose square is at most another's is within it.
pub proof fn lemma_within_root(x: int, w: int)
    requires
        x * x <= w * w,
        0 <= w,
    ensures
        -w <= x <= w,
{
    if x > w {
        assert(x * x > w * w) by (nonlinear_arith)
            requires
                x > w,
                0 <= w,
        ;
    }
    if x < -w {
        assert(x * x > w * w) by (nonlinear_arith)
            requires
                x < -w,
                0 <= w,
        ;
    }
}

/// A height whose square is within bounds stays clear of the ends of the numbers.
proof fn lemma_clear_of_the_ends(x: int, q: int, n: int)
    requires
        x * x <= 100_000_000 * (q + 200 * n),
        q <= 0x400_0000_0000_0000_0000_0000,
        n <= 0x1_0000_0000_0000_0000_0000,
    ensures
        -WIDEST <= x <= WIDEST,
{
    let w = 0x800_0000_0000_0000int;
    assert(w * w == 0x40_0000_0000_0000_0000_0000_0000_0000int);
    lemma_within_root(x, w);
}

/// The heights of a field whose energy is within the allowance.
proof fn lemma_heights_in_run(x: Seq<Fixed>, y: Seq<Fixed>, q: int, n: int, k: int)
    requires
        x.len() == SIM_AREA,
        y.len() == SIM_AREA,
        energy_of(x, y) <= allowance(q, n) as real,
        0 <= q <= 0x400_0000_0000_0000_0000_0000,
        0 <= n <= 0x1_0000_0000_0000_0000_0000,
        0 <= k < SIM_AREA,
        !on_rim(k),
    ensures
        x[k].raw * x[k].raw <= 100_000_000 * (q + 200 * n),
        -WIDEST <= x[k].raw <= WIDEST,
        -WIDEST <= y[k].raw <= WIDEST,
{
    law_no_height_outgrows_the_energy(x, y, k);
    let (v, w) = (x[k].raw as int, y[k].raw as int);
    assert((v * v) as real == (v as real) * (v as real)) by (nonlinear_arith);
    assert((w * w) as real == (w as real) * (w as real)) by (nonlinear_arith);
    let e = energy_of(x, y);
    lemma_allowance(v * v, e, q, n);
    lemma_allowance(w * w, e, q, n);
    lemma_clear_of_the_ends(v, q, n);
    lemma_clear_of_the_ends(w, q, n);
}

/// After any number of steps from a bounded field with its rim at rest, the rim is at rest and the
/// energy is within the allowance.
proof fn lemma_run(h: Seq<Fixed>, prev: Seq<Fixed>, b: int, n: nat)
    requires
        h.len() == SIM_AREA,
        prev.len() == SIM_AREA,
        within(h, b),
        within(prev, b),
        rim_rests(h),
        0 <= b,
        0 <= b * b <= 0x400_0000_0000_0000_0000_0000,
        n <= 0x1_0000_0000_0000_0000_0000,
    ensures
        stepped_times(h, prev, n).0.len() == SIM_AREA,
        stepped_times(h, prev, n).1.len() == SIM_AREA,
        rim_rests(stepped_times(h, prev, n).0),
        energy_of(stepped_times(h, prev, n).0, stepped_times(h, prev, n).1) <= allowance(
            b * b,
            n as int,
        ) as real,
    decreases n,
{
    if n == 0 {
        law_a_bounded_field_has_little_energy(h, prev, b);
    } else {
        let p = (n - 1) as nat;
        lemma_run(h, prev, b, p);
        let (x, y) = stepped_times(h, prev, p);
        lemma_one_more(x, y, b * b, p as int);
    }
}

proof fn lemma_one_more(x: Seq<Fixed>, y: Seq<Fixed>, q: int, n: int)
    requires
        x.len() == SIM_AREA,
        y.len() == SIM_AREA,
        rim_rests(x),
        energy_of(x, y) <= allowance(q, n) as real,
        0 <= q <= 0x400_0000_0000_0000_0000_0000,
        0 <= n <= 0x1_0000_0000_0000_0000_0000,
    ensures
        rim_rests(stepped(x, y)),
        energy_of(stepped(x, y), x) <= allowance(q, n + 1) as real,
{
    assert forall|k: int| 0 <= k < SIM_AREA implies -WIDEST <= (#[trigger] x[k]).raw <= WIDEST by {
        if !on_rim(k) {
            lemma_heights_in_run(x, y, q, n, k);
        }
    }
    assert forall|k: int| 0 <= k < SIM_AREA && !on_rim(k) implies -WIDEST <= (
    #[trigger] y[k]).raw <= WIDEST by {
        lemma_heights_in_run(x, y, q, n, k);
    }
    law_energy_does_not_grow(x, y);
    let z = stepped(x, y);
    assert(int_of::<Fixed>(0).raw == 0);
    assert forall|k: int| 0 <= k < SIM_AREA && on_rim(k) implies (#[trigger] z[k]).raw == 0 by {
    }
    assert(allowance(q, n + 1) == allowance(q, n) + 37232640);
}

/// Taking one step and then `n` more is taking one more than `n`.
proof fn lemma_first_of_many(h: Seq<Fixed>, prev: Seq<Fixed>, n: nat)
    ensures
        stepped_times(h, prev, n + 1) == stepped_times(stepped(h, prev), h, n),
    decreases n,
{
    if n == 0 {
        reveal_with_fuel(stepped_times, 2);
    } else {
        lemma_first_of_many(h, prev, (n - 1) as nat);
    }
}

/// A share of a number is within what the number is within.
proof fn lemma_share_shrinks(x: Fixed, y: Fixed, m: int)
    requires
        -m <= x.raw <= m,
        0 <= y.raw <= 0x1_0000_0000,
        0 <= m <= 0x4000_0000_0000,
    ensures
        -m <= (x * y).raw <= m,
{
    let p = x.raw * y.raw;
    assert(-(m * 0x1_0000_0000) <= p <= m * 0x1_0000_0000) by (nonlinear_arith)
        requires
            p == x.raw * y.raw,
            -m <= x.raw <= m,
            0 <= y.raw <= 0x1_0000_0000,
            0 <= m,
    ;
    assert(x * y == saturated(p / 0x1_0000_0000));
}

/// The bending's share in a step from a field within a bound is within it.
proof fn lemma_bending_share(lap: Fixed, b: int)
    requires
        -(8 * b) <= lap.raw <= 8 * b,
        0 <= b <= 0x800_0000_0000,
    ensures
        -b <= (sim_c2::<Fixed>() * lap).raw <= b,
{
    let c2 = sim_c2::<Fixed>();
    assert(c2.raw == 4294967);
    let m = c2.raw * lap.raw;
    assert(m == 4294967 * lap.raw) by (nonlinear_arith)
        requires
            m == c2.raw * lap.raw,
            c2.raw == 4294967,
    ;
    assert(-(b * 0x1_0000_0000) <= m <= b * 0x1_0000_0000);
    assert(c2 * lap == saturated(m / 0x1_0000_0000));
}

/// One step of a cell of a field within a bound stays within four times it.
proof fn lemma_first_step(h: Seq<Fixed>, prev: Seq<Fixed>, b: int, k: int)
    requires
        within(h, b),
        within(prev, b),
        0 <= b <= 0x800_0000_0000,
        0 <= k < SIM_AREA,
    ensures
        -(4 * b) <= stepped_cell(h, prev, k).raw <= 4 * b,
        on_rim(k) ==> stepped_cell(h, prev, k).raw == 0,
{
    assert(int_of::<Fixed>(0).raw == 0);
    if !on_rim(k) {
        let w = SIM_CELLS as int;
        assert(SIM_CELLS < k && k + SIM_CELLS < SIM_AREA);
        assert(-b <= h[k].raw <= b && -b <= prev[k].raw <= b);
        assert(-b <= h[k - 1].raw <= b && -b <= h[k + 1].raw <= b);
        assert(-b <= h[k - w].raw <= b && -b <= h[k + w].raw <= b);
        lemma_small_multiples(h[k]);
        let lap = laplacian(h, k);
        assert(-(8 * b) <= lap.raw <= 8 * b);
        lemma_bending_share(lap, b);
        let x = int_of::<Fixed>(2) * h[k] - prev[k] + sim_c2::<Fixed>() * lap;
        assert(-(4 * b) <= x.raw <= 4 * b);
        let damp = sim_damp::<Fixed>();
        assert(damp.raw == 4275639943);
        lemma_share_shrinks(x, damp, 4 * b);
        let held = absorption::<Fixed>(depth_in(k));
        assert(1 <= depth_in(k));
        law_the_rim_absorbs_gradually(depth_in(k), depth_in(k));
        assert(int_of::<Fixed>(1).raw == 0x1_0000_0000);
        assert(Fixed::frac(72, 100).raw == 3092376453);
        lemma_share_shrinks(x * damp, held, 4 * b);
    }
}

/// The waves stay bounded: however long a field runs on, no cell ever stands higher than forty
/// thousand times what the tallest of it stood at or had stood at the step before, but for what
/// rounding adds. With `b` that height, in steps of the numbers, the square of every height after
/// `n` steps of the field is at most `100_000_000 * (16 * b * b + 200 * n)`.
pub proof fn law_waves_stay_bounded(h: Seq<Fixed>, prev: Seq<Fixed>, b: int, n: nat, k: int)
    requires
        h.len() == SIM_AREA,
        prev.len() == SIM_AREA,
        within(h, b),
        within(prev, b),
        0 <= b <= 0x800_0000_0000,
        n <= 0x1_0000_0000_0000_0000_0000,
        0 <= k < SIM_AREA,
    ensures
        stepped_times(h, prev, n).0[k].raw * stepped_times(h, prev, n).0[k].raw <= 100_000_000 * (16
            * (b * b) + 200 * n),
{
    assert(0 <= b * b <= 0x800_0000_0000 * 0x800_0000_0000) by (nonlinear_arith)
        requires
            0 <= b <= 0x800_0000_0000,
    ;
    if n == 0 {
        let v = h[k].raw as int;
        assert(-b <= v <= b);
        assert((b - v) * (b + v) >= 0) by (nonlinear_arith)
            requires
                -b <= v <= b,
        ;
        assert((b - v) * (b + v) == b * b - v * v) by (nonlinear_arith);
    } else {
        let m = (n - 1) as nat;
        let first = stepped(h, prev);
        assert forall|j: int| 0 <= j < SIM_AREA implies -(4 * b) <= (#[trigger] first[j]).raw <= 4
            * b && (on_rim(j) ==> first[j].raw == 0) by {
            lemma_first_step(h, prev, b, j);
        }
        assert((4 * b) * (4 * b) == 16 * (b * b)) by (nonlinear_arith);
        lemma_first_of_many(h, prev, m);
        assert forall|j: int| 0 <= j < SIM_AREA implies -(4 * b) <= (#[trigger] h[j]).raw <= 4
            * b by {
            assert(-b <= h[j].raw <= b);
        }
        lemma_run(first, h, 4 * b, m);
        let (x, y) = stepped_times(first, h, m);
        if on_rim(k) {
            assert(x[k].raw == 0);
            assert(0int * 0int == 0);
        } else {
            lemma_heights_in_run(x, y, 16 * (b * b), m as int, k);
        }
    }
}

} // verus!
