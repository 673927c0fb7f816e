//! Why the waves stay bounded: a step of the wave equation never adds to the field's energy more
//! than its numbers round.
//!
//! The scheme is explicit, and an explicit scheme with too long a step does not decay, it explodes.
//! What holds this one is an energy: the squares of how fast the field moves, less its bending times
//! the wave speed, plus what the damping holds it back by. Whatever the field does, a step takes
//! from this energy the damping's part of the motion; and while the wave speed is well under one
//! half, no height can outgrow it. Everything here speaks of heights as real numbers of the steps
//! that [`Fixed`] counts in, and of the rim as at rest. How high the waves can run follows in
//! [`crate::stability`], and in [`crate::hammering`] while they are pushed.

use vstd::prelude::*;

use crate::fixed::{saturated, Fixed, ONE};
use crate::ripple_sim::{
    absorption, depth_in, laplacian, law_the_rim_absorbs_gradually, on_rim, sim_c2, sim_damp,
    stepped, stepped_cell, SIM_AREA, SIM_CELLS,
};
use crate::scalar::{int_of, Scalar};

verus! {

/// How strongly a cell is drawn to its neighbours each step.
pub open spec fn pull() -> real {
    sim_c2::<Fixed>().raw as real / (0x1_0000_0000 as real)
}

/// How much of its motion a cell keeps each step.
pub open spec fn keep(k: int) -> real {
    (sim_damp::<Fixed>().raw as real / (0x1_0000_0000 as real)) * (absorption::<Fixed>(
        depth_in(k),
    ).raw as real / (0x1_0000_0000 as real))
}

/// How much a cell is held back each step, as a share of where it comes to stand.
pub open spec fn drag(k: int) -> real {
    (1 as real) / keep(k) - (1 as real)
}

/// A field's heights as real numbers, with the rim at rest.
pub open spec fn heights(h: Seq<Fixed>) -> Seq<real> {
    Seq::new(
        SIM_AREA as nat,
        |k: int|
            if on_rim(k) {
                0 as real
            } else {
                h[k].raw as real
            },
    )
}

/// Whether a field covers the lattice and its rim is at rest.
pub open spec fn moored(f: Seq<real>) -> bool {
    &&& f.len() == SIM_AREA
    &&& forall|k: int| 0 <= k < SIM_AREA && on_rim(k) ==> #[trigger] f[k] == 0 as real
}

/// How a field bends at a cell: its four neighbours less four of itself. The rim does not.
pub open spec fn bend(f: Seq<real>, k: int) -> real {
    if on_rim(k) {
        0 as real
    } else {
        f[k - 1] + f[k + 1] + (f[k - SIM_CELLS] + f[k + SIM_CELLS]) - (4 as real) * f[k]
    }
}

/// One cell's part of the energy of a field `a` that stood at `b` a step before.
pub open spec fn cell_energy(a: Seq<real>, b: Seq<real>, k: int) -> real {
    (a[k] - b[k]) * (a[k] - b[k]) - pull() * (a[k] * bend(b, k)) + drag(k) * (a[k] * a[k] + b[k]
        * b[k]) / (2 as real)
}

/// The energy in the first `n` cells.
pub open spec fn energy(a: Seq<real>, b: Seq<real>, n: int) -> real
    decreases n,
{
    if n <= 0 {
        0 as real
    } else {
        energy(a, b, n - 1) + cell_energy(a, b, n - 1)
    }
}

/// The energy of a field that stood at `prev` a step before.
pub open spec fn energy_of(h: Seq<Fixed>, prev: Seq<Fixed>) -> real {
    energy(heights(h), heights(prev), SIM_AREA as int)
}

/// One field times the bending of another, over the first `n` cells.
spec fn cross(f: Seq<real>, g: Seq<real>, n: int) -> real
    decreases n,
{
    if n <= 0 {
        0 as real
    } else {
        cross(f, g, n - 1) + f[n - 1] * bend(g, n - 1)
    }
}

/// The squares of the first `n` cells.
spec fn squares(g: Seq<real>, n: int) -> real
    decreases n,
{
    if n <= 0 {
        0 as real
    } else {
        squares(g, n - 1) + g[n - 1] * g[n - 1]
    }
}

/// What flows between a cell and the one `m` further on.
spec fn flux(f: Seq<real>, g: Seq<real>, m: int, k: int) -> real {
    if 0 <= k && k + m < SIM_AREA {
        f[k] * g[k + m] - g[k] * f[k + m]
    } else {
        0 as real
    }
}

/// What flows, over the first `n` cells.
spec fn flow(f: Seq<real>, g: Seq<real>, m: int, n: int) -> real
    decreases n,
{
    if n <= 0 {
        0 as real
    } else {
        flow(f, g, m, n - 1) + flux(f, g, m, n - 1)
    }
}

/// Where the cells around a cell off the rim are.
proof fn lemma_off_rim(k: int)
    requires
        0 <= k < SIM_AREA,
        !on_rim(k),
    ensures
        SIM_CELLS < k,
        k + SIM_CELLS + 1 < SIM_AREA,
        1 <= depth_in(k) < SIM_CELLS,
{
}

/// The first and the last row are on the rim.
proof fn lemma_end_rows(k: int)
    requires
        0 <= k < SIM_CELLS || SIM_AREA - SIM_CELLS <= k < SIM_AREA,
    ensures
        on_rim(k),
{
}

/// A product of nothing is nothing.
pub proof fn lemma_nothing(x: real)
    ensures
        x * (0 as real) == 0 as real,
        (0 as real) * x == 0 as real,
{
}

/// Bending is even-handed: up to what flows out past the last cell, one field times the bending of
/// another is the other times the bending of the one.
proof fn lemma_cross_flows(f: Seq<real>, g: Seq<real>, n: int)
    requires
        moored(f),
        moored(g),
        0 <= n <= SIM_AREA,
    ensures
        cross(f, g, n) - cross(g, f, n) == flux(f, g, 1, n - 1) + (flow(f, g, SIM_CELLS as int, n)
            - flow(f, g, SIM_CELLS as int, n - SIM_CELLS)),
    decreases n,
{
    if n > 0 {
        lemma_cross_flows(f, g, n - 1);
        let k = n - 1;
        let w = SIM_CELLS as int;
        if on_rim(k) {
            assert(f[k] == 0 as real && g[k] == 0 as real);
            lemma_nothing(bend(g, k));
            lemma_nothing(bend(f, k));
            if k + 1 < SIM_AREA {
                lemma_nothing(g[k + 1]);
                lemma_nothing(f[k + 1]);
            }
            if k - 1 >= 0 {
                lemma_nothing(g[k - 1]);
                lemma_nothing(f[k - 1]);
            }
            if k + w < SIM_AREA {
                lemma_nothing(g[k + w]);
                lemma_nothing(f[k + w]);
            }
            if k - w >= 0 {
                lemma_nothing(g[k - w]);
                lemma_nothing(f[k - w]);
            }
        } else {
            lemma_off_rim(k);
            lemma_one_flow(
                f[k],
                f[k - 1],
                f[k + 1],
                f[k - w],
                f[k + w],
                g[k],
                g[k - 1],
                g[k + 1],
                g[k - w],
                g[k + w],
            );
        }
    }
}

proof fn lemma_one_flow(
    f: real,
    fl: real,
    fr: real,
    fd: real,
    fu: real,
    g: real,
    gl: real,
    gr: real,
    gd: real,
    gu: real,
)
    ensures
        f * (gl + gr + (gd + gu) - (4 as real) * g) - g * (fl + fr + (fd + fu) - (4 as real) * f)
            == (f * gr - g * fr) - (fl * g - gl * f) + ((f * gu - g * fu) - (fd * g - gd * f)),
{
    assert(f * (gl + gr + (gd + gu) - (4 as real) * g) - g * (fl + fr + (fd + fu) - (4 as real) * f)
        == (f * gr - g * fr) - (fl * g - gl * f) + ((f * gu - g * fu) - (fd * g - gd * f)))
        by (nonlinear_arith);
}

/// Nothing flows along the last row.
proof fn lemma_last_row_is_still(f: Seq<real>, g: Seq<real>, n: int)
    requires
        moored(f),
        moored(g),
        SIM_AREA - SIM_CELLS <= n <= SIM_AREA,
    ensures
        flow(f, g, SIM_CELLS as int, n) == flow(f, g, SIM_CELLS as int, SIM_AREA - SIM_CELLS),
    decreases n,
{
    if n > SIM_AREA - SIM_CELLS {
        lemma_last_row_is_still(f, g, n - 1);
    }
}

/// Bending is even-handed over the whole lattice.
proof fn lemma_cross_is_even(f: Seq<real>, g: Seq<real>)
    requires
        moored(f),
        moored(g),
    ensures
        cross(f, g, SIM_AREA as int) == cross(g, f, SIM_AREA as int),
{
    lemma_cross_flows(f, g, SIM_AREA as int);
    lemma_last_row_is_still(f, g, SIM_AREA as int);
}

/// A field times the cells `m` to either side of each, over the first `n`.
spec fn beside(g: Seq<real>, m: int, n: int) -> real
    decreases n,
{
    if n <= 0 {
        0 as real
    } else {
        beside(g, m, n - 1) + if on_rim(n - 1) {
            0 as real
        } else {
            g[n - 1] * (g[n - 1 - m] + g[n - 1 + m])
        }
    }
}

proof fn lemma_squares_grow(g: Seq<real>, a: int, b: int)
    requires
        a <= b,
    ensures
        (0 as real) <= squares(g, a) <= squares(g, b),
    decreases b,
{
    if b > 0 {
        assert(g[b - 1] * g[b - 1] >= 0 as real) by (nonlinear_arith);
        if a < b {
            lemma_squares_grow(g, a, b - 1);
        } else {
            lemma_squares_grow(g, b - 1, b - 1);
        }
    }
}

/// A field times its neighbours is at most its squares, either way.
proof fn lemma_beside_so_far(g: Seq<real>, m: int, n: int)
    requires
        moored(g),
        m == 1 || m == SIM_CELLS,
        0 <= n <= SIM_AREA - m,
    ensures
        ({
            let most = squares(g, n) + (squares(g, n - m) + squares(g, n + m)) / (2 as real);
            -most <= beside(g, m, n) <= most
        }),
    decreases n,
{
    lemma_squares_grow(g, n, n + m);
    lemma_squares_grow(g, n - m, n);
    if n > 0 {
        lemma_beside_so_far(g, m, n - 1);
        let k = n - 1;
        lemma_squares_grow(g, k - m, k - m + 1);
        lemma_squares_grow(g, k + m, k + m + 1);
        lemma_squares_grow(g, k, k + 1);
        if !on_rim(k) {
            lemma_off_rim(k);
            let (x, y, z) = (g[k], g[k - m], g[k + m]);
            assert(squares(g, n - m) == squares(g, k - m) + y * y);
            assert(squares(g, n + m) == squares(g, k + m) + z * z);
            let one = x * x + (y * y + z * z) / (2 as real);
            assert(-one <= x * (y + z) <= one) by (nonlinear_arith)
                requires
                    one == x * x + (y * y + z * z) / (2 as real),
            ;
        }
    }
}

/// Over the whole lattice a field times its neighbours is at most twice its squares, either way.
proof fn lemma_beside(g: Seq<real>, m: int, n: int)
    requires
        moored(g),
        m == 1 || m == SIM_CELLS,
        SIM_AREA - m <= n <= SIM_AREA,
    ensures
        ({
            let most = (2 as real) * squares(g, SIM_AREA as int);
            -most <= beside(g, m, n) <= most
        }),
    decreases n,
{
    if n == SIM_AREA - m {
        lemma_beside_so_far(g, m, n);
        lemma_squares_grow(g, n, SIM_AREA as int);
        lemma_squares_grow(g, n - m, SIM_AREA as int);
    } else {
        lemma_beside(g, m, n - 1);
        lemma_end_rows(n - 1);
    }
}

proof fn lemma_cross_splits(g: Seq<real>, n: int)
    requires
        moored(g),
        0 <= n <= SIM_AREA,
    ensures
        cross(g, g, n) == beside(g, 1, n) + beside(g, SIM_CELLS as int, n) - (4 as real) * squares(
            g,
            n,
        ),
    decreases n,
{
    if n > 0 {
        lemma_cross_splits(g, n - 1);
        let k = n - 1;
        if on_rim(k) {
            assert(g[k] == 0 as real);
            lemma_nothing(bend(g, k));
        } else {
            lemma_off_rim(k);
            let w = SIM_CELLS as int;
            let (x, p, q) = (g[k], g[k - 1] + g[k + 1], g[k - w] + g[k + w]);
            assert(x * (p + q - (4 as real) * x) == x * p + x * q - (4 as real) * (x * x))
                by (nonlinear_arith);
        }
    }
}

/// A field times its own bending is never more than nothing, and never less than eight times its
/// squares below it.
proof fn lemma_bending_bounds(g: Seq<real>)
    requires
        moored(g),
    ensures
        cross(g, g, SIM_AREA as int) <= 0 as real,
        -((8 as real) * squares(g, SIM_AREA as int)) <= cross(g, g, SIM_AREA as int),
{
    lemma_cross_splits(g, SIM_AREA as int);
    lemma_beside(g, 1, SIM_AREA as int);
    lemma_beside(g, SIM_CELLS as int, SIM_AREA as int);
}

/// Two fields, one on top of the other.
spec fn sum_of(a: Seq<real>, b: Seq<real>) -> Seq<real> {
    Seq::new(SIM_AREA as nat, |k: int| a[k] + b[k])
}

/// How far one field is from another.
spec fn gap_of(a: Seq<real>, b: Seq<real>) -> Seq<real> {
    Seq::new(SIM_AREA as nat, |k: int| a[k] - b[k])
}

proof fn lemma_cross_polarises(a: Seq<real>, b: Seq<real>, n: int)
    requires
        moored(a),
        moored(b),
        0 <= n <= SIM_AREA,
    ensures
        (2 as real) * (cross(a, b, n) + cross(b, a, n)) == cross(sum_of(a, b), sum_of(a, b), n)
            - cross(gap_of(a, b), gap_of(a, b), n),
    decreases n,
{
    if n > 0 {
        lemma_cross_polarises(a, b, n - 1);
        let k = n - 1;
        let (s, m) = (sum_of(a, b), gap_of(a, b));
        if on_rim(k) {
            lemma_nothing(a[k]);
            lemma_nothing(b[k]);
            lemma_nothing(s[k]);
            lemma_nothing(m[k]);
        } else {
            lemma_off_rim(k);
            let (x, y, p, q) = (a[k], b[k], bend(a, k), bend(b, k));
            assert(bend(s, k) == p + q);
            assert(bend(m, k) == p - q);
            assert((2 as real) * (x * q + y * p) == (x + y) * (p + q) - (x - y) * (p - q))
                by (nonlinear_arith);
        }
    }
}

/// What the bending takes from the energy is at most twice what the motion gives it.
proof fn lemma_cross_at_most(a: Seq<real>, b: Seq<real>)
    requires
        moored(a),
        moored(b),
    ensures
        cross(a, b, SIM_AREA as int) <= (2 as real) * squares(gap_of(a, b), SIM_AREA as int),
{
    let (s, m) = (sum_of(a, b), gap_of(a, b));
    assert(moored(s) && moored(m));
    lemma_cross_is_even(a, b);
    lemma_cross_polarises(a, b, SIM_AREA as int);
    lemma_bending_bounds(s);
    lemma_bending_bounds(m);
}

/// How much cells keep and are held back by, wherever they are.
pub proof fn lemma_drag(k: int)
    requires
        0 <= k < SIM_AREA,
        !on_rim(k),
    ensures
        (0 as real) < keep(k) <= 1 as real,
        keep(k) * ((1 as real) + drag(k)) == 1 as real,
        452 as real <= (100000 as real) * drag(k),
        (5 as real) * drag(k) <= 2 as real,
        (0 as real) <= pull(),
        (1000 as real) * pull() <= 1 as real,
        0 <= sim_damp::<Fixed>().raw <= ONE,
        0 <= absorption::<Fixed>(depth_in(k)).raw <= ONE,
        0 <= sim_c2::<Fixed>().raw <= ONE,
{
    lemma_off_rim(k);
    law_the_rim_absorbs_gradually(depth_in(k), depth_in(k));
    let damp = sim_damp::<Fixed>().raw;
    let held = absorption::<Fixed>(depth_in(k)).raw;
    assert(damp == 4275639943);
    assert(Fixed::frac(72, 100).raw == 3092376453);
    assert(sim_c2::<Fixed>().raw == 4294967);
    assert(int_of::<Fixed>(1).raw == 0x1_0000_0000);
    let x = damp as real / (0x1_0000_0000 as real);
    let y = held as real / (0x1_0000_0000 as real);
    assert(9954 as real <= (10000 as real) * x <= 9955 as real);
    assert(7199 as real <= (10000 as real) * y && y <= 1 as real);
    lemma_keep_bounds(x, y, drag(k));
}

proof fn lemma_keep_bounds(x: real, y: real, d: real)
    requires
        9954 as real <= (10000 as real) * x <= 9955 as real,
        7199 as real <= (10000 as real) * y,
        y <= 1 as real,
        d == (1 as real) / (x * y) - (1 as real),
    ensures
        (0 as real) < x * y <= 1 as real,
        (x * y) * ((1 as real) + d) == 1 as real,
        452 as real <= (100000 as real) * d,
        (5 as real) * d <= 2 as real,
{
    let z = x * y;
    assert(z <= x) by (nonlinear_arith)
        requires
            z == x * y,
            (0 as real) < x,
            y <= 1 as real,
    ;
    assert(7199 as real * x <= (10000 as real) * z) by (nonlinear_arith)
        requires
            z == x * y,
            (0 as real) < x,
            7199 as real <= (10000 as real) * y,
    ;
    assert(z * ((1 as real) / z) == 1 as real) by (nonlinear_arith)
        requires
            (0 as real) < z,
    ;
    let w = (1 as real) / z;
    assert(z * ((1 as real) + d) == z * w);
    assert(100452 as real <= (100000 as real) * w) by (nonlinear_arith)
        requires
            z * w == 1 as real,
            (0 as real) < z,
            (10000 as real) * z <= 9955 as real,
    ;
    assert((5 as real) * w <= 7 as real) by (nonlinear_arith)
        requires
            z * w == 1 as real,
            (0 as real) < z,
            7165 as real <= (10000 as real) * z,
    ;
}

/// A product with a share is the product of the numbers, less what rounding down takes.
proof fn lemma_times_rounds(x: Fixed, y: Fixed) -> (e: real)
    requires
        0 <= y.raw <= ONE,
    ensures
        (0 as real) <= e <= 1 as real,
        (x * y).raw as real == x.raw as real * (y.raw as real / (0x1_0000_0000 as real)) - e,
        x.raw >= 0 ==> 0 <= (x * y).raw <= x.raw,
        x.raw < 0 ==> x.raw <= (x * y).raw <= 0,
        y * x == x * y,
{
    let m = x.raw * y.raw;
    let q = m / 0x1_0000_0000;
    let r = m % 0x1_0000_0000;
    assert(y.raw * x.raw == m) by (nonlinear_arith)
        requires
            m == x.raw * y.raw,
    ;
    if x.raw >= 0 {
        assert(0 <= m <= x.raw * 0x1_0000_0000) by (nonlinear_arith)
            requires
                m == x.raw * y.raw,
                0 <= y.raw <= 0x1_0000_0000,
                0 <= x.raw,
        ;
    } else {
        assert(x.raw * 0x1_0000_0000 <= m <= 0) by (nonlinear_arith)
            requires
                m == x.raw * y.raw,
                0 <= y.raw <= 0x1_0000_0000,
                x.raw < 0,
        ;
    }
    assert(m == 0x1_0000_0000 * q + r);
    assert(x * y == saturated(q));
    assert(m as real == (x.raw as real) * (y.raw as real)) by (nonlinear_arith)
        requires
            m == x.raw * y.raw,
    ;
    let (a, b) = (x.raw as real, y.raw as real);
    let part = b / (0x1_0000_0000 as real);
    assert(b == (0x1_0000_0000 as real) * part);
    assert(a * ((0x1_0000_0000 as real) * part) == (0x1_0000_0000 as real) * (a * part))
        by (nonlinear_arith);
    let e = (r as real) / (0x1_0000_0000 as real);
    assert(m as real == (0x1_0000_0000 as real) * (q as real) + r as real);
    e
}

/// How wide a field may be for a step to stay clear of the ends of the numbers.
pub const WIDEST: i64 = 0x800_0000_0000_0000;

/// Whether a field's heights are all within a bound.
pub open spec fn within(h: Seq<Fixed>, b: int) -> bool {
    forall|k: int| 0 <= k < SIM_AREA ==> -b <= (#[trigger] h[k]).raw <= b
}

/// Whether the rim of a field is at rest.
pub open spec fn rim_rests(h: Seq<Fixed>) -> bool {
    forall|k: int| 0 <= k < SIM_AREA && on_rim(k) ==> (#[trigger] h[k]).raw == 0
}

/// Twice and four times a number are exact.
pub proof fn lemma_small_multiples(x: Fixed)
    requires
        -0x1000_0000_0000_0000 <= x.raw <= 0x1000_0000_0000_0000,
    ensures
        (int_of::<Fixed>(2) * x).raw == 2 * x.raw,
        (int_of::<Fixed>(4) * x).raw == 4 * x.raw,
{
    assert(int_of::<Fixed>(2).raw == 0x2_0000_0000);
    assert(int_of::<Fixed>(4).raw == 0x4_0000_0000);
    assert((0x2_0000_0000 * x.raw) / 0x1_0000_0000 == 2 * x.raw);
    assert((0x4_0000_0000 * x.raw) / 0x1_0000_0000 == 4 * x.raw);
}

/// A step is the wave equation in real numbers, less what rounding down takes: three steps of the
/// numbers at most.
proof fn lemma_step_rounds(h: Seq<Fixed>, prev: Seq<Fixed>, k: int) -> (e: real)
    requires
        h.len() == SIM_AREA,
        prev.len() == SIM_AREA,
        within(h, WIDEST as int),
        rim_rests(h),
        -WIDEST <= prev[k].raw <= WIDEST,
        0 <= k < SIM_AREA,
        !on_rim(k),
    ensures
        (0 as real) <= e <= 3 as real,
        stepped_cell(h, prev, k).raw as real == keep(k) * ((2 as real) * heights(h)[k] - heights(
            prev,
        )[k] + pull() * bend(heights(h), k)) - e,
{
    lemma_off_rim(k);
    lemma_drag(k);
    let w = SIM_CELLS as int;
    let f = heights(h);
    assert(-WIDEST <= h[k].raw <= WIDEST);
    assert(-WIDEST <= h[k - 1].raw <= WIDEST);
    assert(-WIDEST <= h[k + 1].raw <= WIDEST);
    assert(-WIDEST <= h[k - w].raw <= WIDEST);
    assert(-WIDEST <= h[k + w].raw <= WIDEST);
    lemma_small_multiples(h[k]);
    let lap = laplacian(h, k);
    assert(lap.raw == h[k - 1].raw + h[k + 1].raw + h[k - w].raw + h[k + w].raw - 4 * h[k].raw);
    assert(f[k - 1] == h[k - 1].raw as real);
    assert(f[k + 1] == h[k + 1].raw as real);
    assert(f[k - w] == h[k - w].raw as real);
    assert(f[k + w] == h[k + w].raw as real);
    assert(lap.raw as real == bend(f, k));
    let c2 = sim_c2::<Fixed>();
    let damp = sim_damp::<Fixed>();
    let held = absorption::<Fixed>(depth_in(k));
    let e1 = lemma_times_rounds(lap, c2);
    let x = int_of::<Fixed>(2) * h[k] - prev[k] + c2 * lap;
    lemma_small_part(lap, c2);
    assert(x.raw == 2 * h[k].raw - prev[k].raw + (c2 * lap).raw);
    let e2 = lemma_times_rounds(x, damp);
    let y = x * damp;
    let e3 = lemma_times_rounds(y, held);
    let one = 0x1_0000_0000 as real;
    let (a, b) = (damp.raw as real / one, held.raw as real / one);
    let bent = bend(f, k);
    let whole = (2 as real) * f[k] - heights(prev)[k] + pull() * bent;
    assert(bent * pull() == pull() * bent) by (nonlinear_arith);
    assert(x.raw as real == whole - e1);
    lemma_rounds_compose(whole, a, b, e1, e2, e3);
    (a * b) * e1 + b * e2 + e3
}

proof fn lemma_rounds_compose(whole: real, a: real, b: real, e1: real, e2: real, e3: real)
    requires
        (0 as real) <= a * b <= 1 as real,
        (0 as real) <= b <= 1 as real,
        (0 as real) <= e1 <= 1 as real,
        (0 as real) <= e2 <= 1 as real,
        (0 as real) <= e3 <= 1 as real,
    ensures
        ((whole - e1) * a - e2) * b - e3 == (a * b) * whole - ((a * b) * e1 + b * e2 + e3),
        (0 as real) <= (a * b) * e1 + b * e2 + e3 <= 3 as real,
{
    assert(((whole - e1) * a - e2) * b - e3 == (a * b) * whole - ((a * b) * e1 + b * e2 + e3))
        by (nonlinear_arith);
    let p = a * b;
    assert((0 as real) <= p * e1 <= 1 as real) by (nonlinear_arith)
        requires
            (0 as real) <= p <= 1 as real,
            (0 as real) <= e1 <= 1 as real,
    ;
    assert((0 as real) <= b * e2 <= 1 as real) by (nonlinear_arith)
        requires
            (0 as real) <= b <= 1 as real,
            (0 as real) <= e2 <= 1 as real,
    ;
}

/// The bending's share in a step is small.
proof fn lemma_small_part(lap: Fixed, c2: Fixed)
    requires
        -8 * WIDEST <= lap.raw <= 8 * WIDEST,
        c2 == sim_c2::<Fixed>(),
    ensures
        -0x1000_0000_0000_0000 <= (c2 * lap).raw <= 0x1000_0000_0000_0000,
{
    assert(c2.raw == 0x1_0000_0000int / 1000);
    let m = c2.raw * lap.raw;
    assert(-0x4000_0000_0000_0000 * 4294967 <= m <= 0x4000_0000_0000_0000 * 4294967)
        by (nonlinear_arith)
        requires
            m == c2.raw * lap.raw,
            c2.raw == 4294967,
            -0x4000_0000_0000_0000 <= lap.raw <= 0x4000_0000_0000_0000,
    ;
}

/// What one cell's energy can gain in a step: what flows to it from its neighbours, and what
/// rounding adds.
proof fn lemma_cell_gains(
    a: real,
    b: real,
    c: real,
    l: real,
    lc: real,
    e: real,
    d: real,
    u: real,
)
    requires
        ((1 as real) + d) * (a + e) == (2 as real) * b - c + u * l,
        452 as real <= (100000 as real) * d,
        (5 as real) * d <= 2 as real,
        (0 as real) <= e <= 3 as real,
    ensures
        ((a - b) * (a - b) - u * (a * l) + d * (a * a + b * b) / (2 as real)) - ((b - c) * (b - c)
            - u * (b * lc) + d * (b * b + c * c) / (2 as real)) <= u * (b * lc - c * l) + (
        1010 as real),
{
    let g = ((1 as real) + d) * e;
    let x = a - c;
    lemma_rounding_is_absorbed(x, e, d);
    let v = u * l;
    assert(u * (a * l) == a * (u * l)) by (nonlinear_arith);
    assert(u * (b * lc - c * l) == u * (b * lc) - c * (u * l)) by (nonlinear_arith);
    assert(((1 as real) + d) * (a + e) == a + d * a + ((1 as real) + d) * e) by (nonlinear_arith);
    assert(v == a + d * a + g - (2 as real) * b + c);
    lemma_motion(a, b, c, d, g);
    assert((a - c) * v == a * v - c * v) by (nonlinear_arith);
}

/// The square of a motion after a step, less that before it, less the work done over two steps, is
/// what the damping takes.
proof fn lemma_motion(a: real, b: real, c: real, d: real, g: real)
    ensures
        (2 as real) * ((a - b) * (a - b) - (b - c) * (b - c) - (a - c) * (a + d * a + g - (2 as real)
            * b + c)) + (d * (a * a + b * b) - d * (b * b + c * c)) == -(d * ((a - c) * (a - c)))
            - (2 as real) * (g * (a - c)),
{
    assert((a - b) * (a - b) - (b - c) * (b - c) == (a - c) * (a - (2 as real) * b + c))
        by (nonlinear_arith);
    assert((a - c) * (a + d * a + g - (2 as real) * b + c) == (a - c) * (a - (2 as real) * b + c) + (
    a - c) * (d * a + g)) by (nonlinear_arith);
    assert((a - c) * (d * a + g) == d * (a * (a - c)) + g * (a - c)) by (nonlinear_arith);
    assert(d * (a * a + b * b) - d * (b * b + c * c) == d * (a * a - c * c)) by (nonlinear_arith);
    assert((a - c) * (a - c) == a * a - (2 as real) * (a * c) + c * c) by (nonlinear_arith);
    assert(a * (a - c) == a * a - a * c) by (nonlinear_arith);
    let (p, q, r) = (a * a, a * c, c * c);
    assert(d * (p - (2 as real) * q + r) == d * p - (2 as real) * (d * q) + d * r)
        by (nonlinear_arith);
    assert(d * (p - q) == d * p - d * q) by (nonlinear_arith);
    assert(d * (p - r) == d * p - d * r) by (nonlinear_arith);
}

/// What rounding adds to a motion, less what the damping takes from it, is bounded whatever the
/// motion is.
proof fn lemma_rounding_is_absorbed(x: real, e: real, d: real)
    requires
        452 as real <= (100000 as real) * d,
        (5 as real) * d <= 2 as real,
        (0 as real) <= e <= 3 as real,
    ensures
        -(d * (x * x)) - (2 as real) * ((((1 as real) + d) * e) * x) <= 2020 as real,
{
    let g = ((1 as real) + d) * e;
    let top = (3 as real) * ((1 as real) + d);
    assert((0 as real) <= g <= top) by (nonlinear_arith)
        requires
            g == ((1 as real) + d) * e,
            top == (3 as real) * ((1 as real) + d),
            (0 as real) <= d,
            (0 as real) <= e <= 3 as real,
    ;
    assert(g * g <= top * top) by (nonlinear_arith)
        requires
            (0 as real) <= g <= top,
    ;
    assert(((3 as real) * ((1 as real) + d)) * ((3 as real) * ((1 as real) + d)) == (9 as real) + (
    18 as real) * d + (9 as real) * (d * d)) by (nonlinear_arith);
    assert((5 as real) * (d * d) <= (2 as real) * d) by (nonlinear_arith)
        requires
            (0 as real) <= d,
            (5 as real) * d <= 2 as real,
    ;
    assert(g * g <= (2020 as real) * d);
    let t = d * (x * x) + (2 as real) * (g * x);
    let r = d * x + g;
    assert(r * r >= 0 as real) by (nonlinear_arith);
    assert((d * x + g) * (d * x + g) == d * (d * (x * x) + (2 as real) * (g * x)) + g * g)
        by (nonlinear_arith);
    assert(t >= -(2020 as real)) by (nonlinear_arith)
        requires
            d * t >= -((2020 as real) * d),
            (0 as real) < d,
    ;
}

/// What the energy in the first cells can gain in a step: what flows to them, and what rounding
/// adds.
proof fn lemma_energy_gains(h: Seq<Fixed>, prev: Seq<Fixed>, n: int)
    requires
        h.len() == SIM_AREA,
        prev.len() == SIM_AREA,
        within(h, WIDEST as int),
        rim_rests(h),
        forall|k: int|
            0 <= k < SIM_AREA && !on_rim(k) ==> -WIDEST <= (#[trigger] prev[k]).raw <= WIDEST,
        0 <= n <= SIM_AREA,
    ensures
        ({
            let (a, b, c) = (heights(stepped(h, prev)), heights(h), heights(prev));
            energy(a, b, n) - energy(b, c, n) <= pull() * (cross(b, c, n) - cross(c, b, n)) + (
            1010 as real) * (n as real)
        }),
    decreases n,
{
    let (a, b, c) = (heights(stepped(h, prev)), heights(h), heights(prev));
    let u = pull();
    if n <= 0 {
        lemma_nothing(u);
    } else {
        lemma_energy_gains(h, prev, n - 1);
        let k = n - 1;
        let (x, y) = (
            cross(b, c, n - 1) - cross(c, b, n - 1),
            b[k] * bend(c, k) - c[k] * bend(b, k),
        );
        assert(u * (x + y) == u * x + u * y) by (nonlinear_arith);
        assert(cross(b, c, n) - cross(c, b, n) == x + y);
        assert(n as real == (n - 1) as real + (1 as real));
        if on_rim(k) {
            assert(a[k] == 0 as real && b[k] == 0 as real && c[k] == 0 as real);
            lemma_nothing(u);
            lemma_nothing(drag(k));
            lemma_nothing(bend(c, k));
            lemma_nothing(bend(b, k));
        } else {
            let e = lemma_step_rounds(h, prev, k);
            lemma_drag(k);
            assert(a[k] == stepped_cell(h, prev, k).raw as real);
            let (d, q) = (drag(k), keep(k));
            let whole = (2 as real) * b[k] - c[k] + u * bend(b, k);
            assert(((1 as real) + d) * (q * whole) == (q * ((1 as real) + d)) * whole)
                by (nonlinear_arith);
            assert(a[k] + e == q * whole);
            lemma_cell_gains(a[k], b[k], c[k], bend(b, k), bend(c, k), e, d, u);
        }
    }
}

/// A step never adds to the field's energy more than its numbers round: of steps squared, as many
/// as a thousand and ten to a cell.
pub proof fn law_energy_does_not_grow(h: Seq<Fixed>, prev: Seq<Fixed>)
    requires
        h.len() == SIM_AREA,
        prev.len() == SIM_AREA,
        within(h, WIDEST as int),
        rim_rests(h),
        forall|k: int|
            0 <= k < SIM_AREA && !on_rim(k) ==> -WIDEST <= (#[trigger] prev[k]).raw <= WIDEST,
    ensures
        energy_of(stepped(h, prev), h) <= energy_of(h, prev) + (1010 as real) * (SIM_AREA as real),
{
    lemma_energy_gains(h, prev, SIM_AREA as int);
    lemma_cross_is_even(heights(h), heights(prev));
    lemma_nothing(pull());
}

/// What the damping holds back, over the first `n` cells.
spec fn held(a: Seq<real>, b: Seq<real>, n: int) -> real
    decreases n,
{
    if n <= 0 {
        0 as real
    } else {
        held(a, b, n - 1) + drag(n - 1) * (a[n - 1] * a[n - 1] + b[n - 1] * b[n - 1]) / (2 as real)
    }
}

proof fn lemma_energy_splits(a: Seq<real>, b: Seq<real>, n: int)
    requires
        moored(a),
        moored(b),
        0 <= n <= SIM_AREA,
    ensures
        energy(a, b, n) == squares(gap_of(a, b), n) - pull() * cross(a, b, n) + held(a, b, n),
    decreases n,
{
    let u = pull();
    if n <= 0 {
        lemma_nothing(u);
    } else {
        lemma_energy_splits(a, b, n - 1);
        let (x, y) = (cross(a, b, n - 1), a[n - 1] * bend(b, n - 1));
        assert(u * (x + y) == u * x + u * y) by (nonlinear_arith);
    }
}

/// What one cell holds back is not negative, nor more than all of them do.
proof fn lemma_held(a: Seq<real>, b: Seq<real>, n: int, k: int)
    requires
        moored(a),
        moored(b),
        0 <= n <= SIM_AREA,
    ensures
        (0 as real) <= held(a, b, n),
        0 <= k < n && !on_rim(k) ==> drag(k) * (a[k] * a[k] + b[k] * b[k]) / (2 as real) <= held(
            a,
            b,
            n,
        ),
    decreases n,
{
    if n > 0 {
        lemma_held(a, b, n - 1, k);
        let j = n - 1;
        if on_rim(j) {
            assert(a[j] == 0 as real && b[j] == 0 as real);
            lemma_nothing(drag(j));
        } else {
            lemma_drag(j);
            let (x, y, d) = (a[j], b[j], drag(j));
            assert(x * x >= 0 as real) by (nonlinear_arith);
            assert(y * y >= 0 as real) by (nonlinear_arith);
            let t = x * x + y * y;
            assert(d * t >= 0 as real) by (nonlinear_arith)
                requires
                    (0 as real) <= d,
                    (0 as real) <= t,
            ;
        }
    }
}

/// No height can outgrow the energy.
proof fn lemma_energy_bounds_heights(a: Seq<real>, b: Seq<real>, k: int)
    requires
        moored(a),
        moored(b),
        0 <= k < SIM_AREA,
        !on_rim(k),
    ensures
        (452 as real) * (a[k] * a[k]) <= (200000 as real) * energy(a, b, SIM_AREA as int),
        (452 as real) * (b[k] * b[k]) <= (200000 as real) * energy(a, b, SIM_AREA as int),
{
    let n = SIM_AREA as int;
    lemma_drag(k);
    lemma_energy_splits(a, b, n);
    lemma_held(a, b, n, k);
    lemma_cross_at_most(a, b);
    lemma_squares_grow(gap_of(a, b), 0, n);
    let (u, c, s) = (pull(), cross(a, b, n), squares(gap_of(a, b), n));
    lemma_pull_is_weak(u, c, s);
    let (x, y, d) = (a[k], b[k], drag(k));
    assert(x * x >= 0 as real) by (nonlinear_arith);
    assert(y * y >= 0 as real) by (nonlinear_arith);
    let t = x * x + y * y;
    assert(((100000 as real) * d) * t >= (452 as real) * t) by (nonlinear_arith)
        requires
            452 as real <= (100000 as real) * d,
            (0 as real) <= t,
    ;
    assert(((100000 as real) * d) * t == (100000 as real) * (d * t)) by (nonlinear_arith);
}

proof fn lemma_pull_is_weak(u: real, c: real, s: real)
    requires
        (0 as real) <= u,
        (1000 as real) * u <= 1 as real,
        c <= (2 as real) * s,
        (0 as real) <= s,
    ensures
        u * c <= s,
{
    assert(u * c <= u * ((2 as real) * s)) by (nonlinear_arith)
        requires
            (0 as real) <= u,
            c <= (2 as real) * s,
    ;
    assert(u * ((2 as real) * s) == (2 as real) * (u * s)) by (nonlinear_arith);
    assert((1000 as real) * (u * s) <= s) by (nonlinear_arith)
        requires
            (1000 as real) * u <= 1 as real,
            (0 as real) <= s,
    ;
}

/// No height can outgrow the energy: neither where a cell stands nor where it stood a step before.
pub proof fn law_no_height_outgrows_the_energy(h: Seq<Fixed>, prev: Seq<Fixed>, k: int)
    requires
        h.len() == SIM_AREA,
        prev.len() == SIM_AREA,
        0 <= k < SIM_AREA,
        !on_rim(k),
    ensures
        (452 as real) * (h[k].raw as real * h[k].raw as real) <= (200000 as real) * energy_of(
            h,
            prev,
        ),
        (452 as real) * (prev[k].raw as real * prev[k].raw as real) <= (200000 as real) * energy_of(
            h,
            prev,
        ),
{
    lemma_energy_bounds_heights(heights(h), heights(prev), k);
}

/// A number within a bound has a square within the bound's.
pub proof fn lemma_square_at_most(x: real, m: real)
    requires
        -m <= x <= m,
    ensures
        x * x <= m * m,
{
    assert((m - x) * (m + x) >= 0 as real) by (nonlinear_arith)
        requires
            -m <= x <= m,
    ;
    assert((m - x) * (m + x) == m * m - x * x) by (nonlinear_arith);
}

/// Two numbers within bounds have a product within the bounds'.
proof fn lemma_product_at_least(x: real, y: real, m: real, w: real)
    requires
        -m <= x <= m,
        -w <= y <= w,
    ensures
        -(m * w) <= x * y,
{
    assert((m + x) * (w + y) >= 0 as real) by (nonlinear_arith)
        requires
            -m <= x,
            -w <= y,
    ;
    assert((m - x) * (w - y) >= 0 as real) by (nonlinear_arith)
        requires
            x <= m,
            y <= w,
    ;
    assert((m + x) * (w + y) + (m - x) * (w - y) == (2 as real) * (m * w) + (2 as real) * (x * y))
        by (nonlinear_arith);
}

proof fn lemma_cell_energy_at_most(a: real, b: real, l: real, d: real, u: real, m: real)
    requires
        -m <= a <= m,
        -m <= b <= m,
        -((8 as real) * m) <= l <= (8 as real) * m,
        (0 as real) <= d,
        (5 as real) * d <= 2 as real,
        (0 as real) <= u,
        (1000 as real) * u <= 1 as real,
    ensures
        (a - b) * (a - b) - u * (a * l) + d * (a * a + b * b) / (2 as real) <= (5 as real) * (m * m),
{
    let q = m * m;
    lemma_square_at_most(a - b, (2 as real) * m);
    assert(((2 as real) * m) * ((2 as real) * m) == (4 as real) * (m * m)) by (nonlinear_arith);
    lemma_square_at_most(a, m);
    lemma_square_at_most(b, m);
    lemma_product_at_least(a, l, m, (8 as real) * m);
    assert(m * ((8 as real) * m) == (8 as real) * (m * m)) by (nonlinear_arith);
    let p = a * l;
    assert(q >= 0 as real) by (nonlinear_arith)
        requires
            q == m * m,
    ;
    lemma_pull_is_weak(u, -p, (4 as real) * q);
    assert(u * (-p) == -(u * p)) by (nonlinear_arith);
    assert((1000 as real) * (u * (-p)) <= (8 as real) * q) by (nonlinear_arith)
        requires
            (0 as real) <= u,
            (1000 as real) * u <= 1 as real,
            -p <= (8 as real) * q,
            (0 as real) <= q,
    ;
    let t = a * a + b * b;
    assert((5 as real) * (d * t) <= (4 as real) * q) by (nonlinear_arith)
        requires
            (0 as real) <= d,
            (5 as real) * d <= 2 as real,
            t <= (2 as real) * q,
            (0 as real) <= q,
    ;
}

/// A bounded field has a bounded energy.
proof fn lemma_energy_at_most(a: Seq<real>, b: Seq<real>, m: real, n: int)
    requires
        moored(a),
        moored(b),
        forall|k: int| 0 <= k < SIM_AREA ==> -m <= #[trigger] a[k] <= m,
        forall|k: int| 0 <= k < SIM_AREA ==> -m <= #[trigger] b[k] <= m,
        (0 as real) <= m,
        0 <= n <= SIM_AREA,
    ensures
        energy(a, b, n) <= ((5 as real) * (m * m)) * (n as real),
    decreases n,
{
    let each = (5 as real) * (m * m);
    if n <= 0 {
        lemma_nothing(each);
    } else {
        lemma_energy_at_most(a, b, m, n - 1);
        let k = n - 1;
        assert(each * (n as real) == each * ((n - 1) as real) + each) by (nonlinear_arith)
            requires
                n as real == (n - 1) as real + (1 as real),
        ;
        if on_rim(k) {
            assert(a[k] == 0 as real && b[k] == 0 as real);
            lemma_nothing(pull());
            lemma_nothing(drag(k));
            lemma_nothing(bend(b, k));
            assert(m * m >= 0 as real) by (nonlinear_arith);
        } else {
            lemma_off_rim(k);
            lemma_drag(k);
            let w = SIM_CELLS as int;
            assert(-m <= b[k - 1] <= m && -m <= b[k + 1] <= m);
            assert(-m <= b[k - w] <= m && -m <= b[k + w] <= m);
            lemma_cell_energy_at_most(a[k], b[k], bend(b, k), drag(k), pull(), m);
        }
    }
}

/// A bounded field has a bounded energy.
pub proof fn law_a_bounded_field_has_little_energy(h: Seq<Fixed>, prev: Seq<Fixed>, b: int)
    requires
        h.len() == SIM_AREA,
        prev.len() == SIM_AREA,
        within(h, b),
        within(prev, b),
        0 <= b,
    ensures
        energy_of(h, prev) <= (5 * (b * b) * 36864) as real,
{
    let (f, g) = (heights(h), heights(prev));
    let m = b as real;
    assert forall|k: int| 0 <= k < SIM_AREA implies -m <= #[trigger] f[k] <= m by {
        assert(-b <= h[k].raw <= b);
    }
    assert forall|k: int| 0 <= k < SIM_AREA implies -m <= #[trigger] g[k] <= m by {
        assert(-b <= prev[k].raw <= b);
    }
    lemma_energy_at_most(f, g, m, SIM_AREA as int);
    let q = b * b;
    assert((b * b) as real == (b as real) * (b as real)) by (nonlinear_arith);
    let (each, cells) = ((5 as real) * (q as real), (SIM_AREA as int) as real);
    assert(each * cells == each * (36864 as real)) by (nonlinear_arith)
        requires
            cells == 36864 as real,
    ;
    assert(each * (36864 as real) == (5 * q * 36864) as real);
}

/// The energy is never negative.
pub proof fn lemma_energy_is_not_negative(a: Seq<real>, b: Seq<real>)
    requires
        moored(a),
        moored(b),
    ensures
        (0 as real) <= energy(a, b, SIM_AREA as int),
{
    let n = SIM_AREA as int;
    lemma_off_rim(SIM_CELLS + 1);
    lemma_drag(SIM_CELLS + 1);
    lemma_energy_splits(a, b, n);
    lemma_held(a, b, n, 0);
    lemma_cross_at_most(a, b);
    lemma_squares_grow(gap_of(a, b), 0, n);
    lemma_pull_is_weak(pull(), cross(a, b, n), squares(gap_of(a, b), n));
}

} // verus!
