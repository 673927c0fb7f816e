//! How high the waves can run while they are pushed: a field that is pushed before every step stays
//! within what it started with, and so much more for each push.
//!
//! A push adds little to the root of the energy, and so does a step, by rounding. A push may move
//! the rim as well, which a step then puts back to rest; what the rim did to its neighbours in
//! between is one more small push.

use vstd::prelude::*;

use crate::energy::{
    energy_of, heights, law_a_bounded_field_has_little_energy, law_energy_does_not_grow,
    law_no_height_outgrows_the_energy, lemma_small_multiples, rim_rests, within, WIDEST,
};
use crate::fixed::{saturated, Fixed};
use crate::pushes::law_a_push_adds_little;
use crate::ripple_sim::{
    absorption, depth_in, laplacian, law_the_rim_absorbs_gradually, on_rim, push_at, pushed, sim_c2,
    sim_damp, stepped, stepped_cell, Disc, SIM_AREA, SIM_CELLS,
};
use crate::scalar::{int_of, Scalar};
use crate::stability::lemma_within_root;

verus! {

/// A field with its rim put to rest.
spec fn rested(h: Seq<Fixed>) -> Seq<Fixed> {
    Seq::new(
        SIM_AREA as nat,
        |k: int|
            if on_rim(k) {
                int_of::<Fixed>(0)
            } else {
                h[k]
            },
    )
}

/// Shares of two numbers are no further apart than the numbers.
proof fn lemma_shares_stay_close(x: Fixed, y: Fixed, c: Fixed, m: int)
    requires
        x.raw - m <= y.raw <= x.raw + m,
        0 <= c.raw <= 0x1_0000_0000,
        0 <= m,
    ensures
        (x * c).raw - m <= (y * c).raw <= (x * c).raw + m,
{
    let (p, q, w) = (x.raw * c.raw, y.raw * c.raw, (y.raw - x.raw) * c.raw);
    assert(w == q - p) by (nonlinear_arith)
        requires
            w == (y.raw - x.raw) * c.raw,
            p == x.raw * c.raw,
            q == y.raw * c.raw,
    ;
    let d = y.raw - x.raw;
    assert(-(m * 0x1_0000_0000) <= w <= m * 0x1_0000_0000) by (nonlinear_arith)
        requires
            w == d * c.raw,
            -m <= d <= m,
            0 <= c.raw <= 0x1_0000_0000,
            0 <= m,
    ;
    assert(x * c == saturated(p / 0x1_0000_0000));
    assert(y * c == saturated(q / 0x1_0000_0000));
}

/// The shares in a step of two bendings.
proof fn lemma_bending_shares_stay_close(x: Fixed, y: Fixed, c: int)
    requires
        x.raw - 4 * c <= y.raw <= x.raw + 4 * c,
        0 <= c,
    ensures
        ({
            let m = c / 250 + 1;
            let (p, q) = ((sim_c2::<Fixed>() * x).raw, (sim_c2::<Fixed>() * y).raw);
            p - m <= q <= p + m
        }),
{
    let c2 = sim_c2::<Fixed>();
    assert(c2.raw == 4294967);
    let (p, q) = (c2.raw * x.raw, c2.raw * y.raw);
    assert(p == 4294967 * x.raw && q == 4294967 * y.raw) by (nonlinear_arith)
        requires
            p == c2.raw * x.raw,
            q == c2.raw * y.raw,
            c2.raw == 4294967,
    ;
    let m = c / 250 + 1;
    assert(p - m * 0x1_0000_0000 <= q <= p + m * 0x1_0000_0000);
    assert(c2 * x == saturated(p / 0x1_0000_0000));
    assert(c2 * y == saturated(q / 0x1_0000_0000));
}

/// What a rim that is not at rest does to a step of the cells inside it.
proof fn lemma_rim_does_little(h: Seq<Fixed>, prev: Seq<Fixed>, c: int, k: int)
    requires
        within(h, WIDEST as int),
        forall|j: int| 0 <= j < SIM_AREA && on_rim(j) ==> -c <= (#[trigger] h[j]).raw <= c,
        -WIDEST <= prev[k].raw <= WIDEST,
        0 <= c,
        0 <= k < SIM_AREA,
        !on_rim(k),
    ensures
        ({
            let m = c / 250 + 1;
            let (p, q) = (stepped_cell(rested(h), prev, k).raw, stepped_cell(h, prev, k).raw);
            p - m <= q <= p + m
        }),
{
    let w = SIM_CELLS as int;
    let f = rested(h);
    assert(SIM_CELLS < k && k + SIM_CELLS < SIM_AREA);
    assert(int_of::<Fixed>(0).raw == 0);
    assert(-WIDEST <= h[k].raw <= WIDEST);
    assert(-WIDEST <= h[k - 1].raw <= WIDEST);
    assert(-WIDEST <= h[k + 1].raw <= WIDEST);
    assert(-WIDEST <= h[k - w].raw <= WIDEST);
    assert(-WIDEST <= h[k + w].raw <= WIDEST);
    assert(f[k] == h[k]);
    assert(h[k - 1].raw - c <= f[k - 1].raw <= h[k - 1].raw + c);
    assert(h[k + 1].raw - c <= f[k + 1].raw <= h[k + 1].raw + c);
    assert(h[k - w].raw - c <= f[k - w].raw <= h[k - w].raw + c);
    assert(h[k + w].raw - c <= f[k + w].raw <= h[k + w].raw + c);
    lemma_small_multiples(h[k]);
    let (x, y) = (laplacian(f, k), laplacian(h, k));
    assert(x.raw - 4 * c <= y.raw <= x.raw + 4 * c);
    lemma_bending_shares_stay_close(x, y, c);
    let m = c / 250 + 1;
    let (c2, damp, held) = (
        sim_c2::<Fixed>(),
        sim_damp::<Fixed>(),
        absorption::<Fixed>(depth_in(k)),
    );
    let start = int_of::<Fixed>(2) * h[k] - prev[k];
    let (v, z) = (start + c2 * x, start + c2 * y);
    assert(v.raw - m <= z.raw <= v.raw + m);
    assert(damp.raw == 4275639943);
    lemma_shares_stay_close(v, z, damp, m);
    assert(1 <= depth_in(k));
    law_the_rim_absorbs_gradually(depth_in(k), depth_in(k));
    assert(int_of::<Fixed>(1).raw == 0x1_0000_0000);
    assert(Fixed::frac(72, 100).raw == 3092376453);
    lemma_shares_stay_close(v * damp, z * damp, held, m);
}

/// A height no energy of a root can outgrow.
proof fn lemma_height_in_root(x: Seq<Fixed>, y: Seq<Fixed>, r: int, k: int)
    requires
        x.len() == SIM_AREA,
        y.len() == SIM_AREA,
        energy_of(x, y) <= (r * r) as real,
        0 <= r,
        0 <= k < SIM_AREA,
        !on_rim(k),
    ensures
        -(22 * r) <= x[k].raw <= 22 * r,
        -(22 * r) <= y[k].raw <= 22 * r,
{
    law_no_height_outgrows_the_energy(x, y, k);
    let (v, w) = (x[k].raw as int, y[k].raw as int);
    assert((v * v) as real == (v as real) * (v as real)) by (nonlinear_arith);
    assert((w * w) as real == (w as real) * (w as real)) by (nonlinear_arith);
    let (vv, ww, rr) = (v * v, w * w, r * r);
    assert((452 * vv) as real <= (200000 * rr) as real);
    assert((452 * ww) as real <= (200000 * rr) as real);
    assert(rr >= 0) by (nonlinear_arith)
        requires
            rr == r * r,
    ;
    assert((22 * r) * (22 * r) == 484 * (r * r)) by (nonlinear_arith);
    lemma_within_root(v, 22 * r);
    lemma_within_root(w, 22 * r);
}

/// Whether pushing a field `from` comes to the field `to` without moving any cell by more than `a`.
pub open spec fn nudged(from: Seq<Fixed>, to: Seq<Fixed>, a: int) -> bool {
    &&& to.len() == SIM_AREA
    &&& forall|k: int|
        0 <= k < SIM_AREA ==> from[k].raw - a <= (#[trigger] to[k]).raw <= from[k].raw + a
}

/// A field and the field before it after `n` steps, where the field was pushed to `fields[i]` before
/// its step `i`.
pub open spec fn hammered(h: Seq<Fixed>, prev: Seq<Fixed>, fields: Seq<Seq<Fixed>>, n: nat) -> (
    Seq<Fixed>,
    Seq<Fixed>,
)
    decreases n,
{
    if n == 0 {
        (h, prev)
    } else {
        let before = hammered(h, prev, fields, (n - 1) as nat);
        (stepped(fields[n - 1], before.1), fields[n - 1])
    }
}

/// Whether each of the first `n` pushes of such a run moves no cell by more than `a`.
pub open spec fn gentle(
    h: Seq<Fixed>,
    prev: Seq<Fixed>,
    fields: Seq<Seq<Fixed>>,
    a: int,
    n: nat,
) -> bool {
    forall|i: nat| i < n ==> nudged((#[trigger] hammered(h, prev, fields, i)).0, fields[i as int], a)
}

/// The root of the energy a field may have come to, started within `b` and pushed `n` times by at
/// most `a`.
pub open spec fn root_allowed(a: int, b: int, n: int) -> int {
    431 * (b + 1) + n * (212 * a + 6313)
}

/// One push and the step after it.
proof fn lemma_push_and_step(
    x: Seq<Fixed>,
    y: Seq<Fixed>,
    to: Seq<Fixed>,
    a: int,
    c: int,
    r: int,
)
    requires
        x.len() == SIM_AREA,
        y.len() == SIM_AREA,
        nudged(x, to, a),
        forall|k: int| 0 <= k < SIM_AREA && on_rim(k) ==> -c <= (#[trigger] x[k]).raw <= c,
        energy_of(x, y) <= (r * r) as real,
        0 <= a,
        0 <= c,
        0 < r,
        22 * r + a <= WIDEST,
        a + c <= WIDEST,
    ensures
        rim_rests(stepped(to, y)),
        ({
            let s = r + 211 * a + 6102 + 211 * ((a + c) / 250 + 1);
            energy_of(stepped(to, y), to) <= (s * s) as real
        }),
{
    let calm = rested(to);
    let (p, q) = (stepped(calm, y), stepped(to, y));
    let m = (a + c) / 250 + 1;
    let t = r + 211 * a;
    let u = t + 6102;
    assert(int_of::<Fixed>(0).raw == 0);
    assert forall|k: int| 0 <= k < SIM_AREA implies -WIDEST <= (#[trigger] to[k]).raw <= WIDEST by {
        if on_rim(k) {
            assert(-c <= x[k].raw <= c);
        } else {
            lemma_height_in_root(x, y, r, k);
        }
    }
    assert forall|k: int| 0 <= k < SIM_AREA && !on_rim(k) implies -WIDEST <= (
    #[trigger] y[k]).raw <= WIDEST by {
        lemma_height_in_root(x, y, r, k);
    }
    law_a_push_adds_little(x, to, y, a, r);
    assert(heights(calm) =~= heights(to));
    assert(within(calm, WIDEST as int)) by {
        assert forall|k: int| 0 <= k < SIM_AREA implies -WIDEST <= (#[trigger] calm[k]).raw
            <= WIDEST by {
            assert(-WIDEST <= to[k].raw <= WIDEST);
        }
    }
    law_energy_does_not_grow(calm, y);
    assert(u * u == t * t + 12204 * t + 37234404) by (nonlinear_arith)
        requires
            u == t + 6102,
    ;
    assert((1010 as real) * ((SIM_AREA as int) as real) == 37232640 as real);
    assert((t * t) as real + (37232640 as real) <= (u * u) as real);
    assert(energy_of(p, to) <= (u * u) as real);
    assert forall|k: int| 0 <= k < SIM_AREA && !on_rim(k) implies p[k].raw - m <= (
    #[trigger] q[k]).raw <= p[k].raw + m by {
        assert forall|j: int| 0 <= j < SIM_AREA && on_rim(j) implies -(a + c) <= (
        #[trigger] to[j]).raw <= a + c by {
            assert(-c <= x[j].raw <= c);
        }
        assert(-WIDEST <= y[k].raw <= WIDEST);
        lemma_rim_does_little(to, y, a + c, k);
    }
    law_a_push_adds_little(p, q, to, m, u);
    assert forall|k: int| 0 <= k < SIM_AREA && on_rim(k) implies (#[trigger] q[k]).raw == 0 by {
    }
}

/// A larger root allows a larger energy.
proof fn lemma_roots_grow(r: int, s: int)
    requires
        0 <= r <= s,
    ensures
        (r * r) as real <= (s * s) as real,
{
    assert(r * r <= s * s) by (nonlinear_arith)
        requires
            0 <= r <= s,
    ;
}

/// The root allowed grows by so much with each push.
proof fn lemma_root_after_one_more(a: int, b: int, n: int)
    requires
        0 <= a,
        0 <= b,
        0 < n,
    ensures
        root_allowed(a, b, n) == root_allowed(a, b, n - 1) + 212 * a + 6313,
        root_allowed(a, b, n - 1) >= 431 * (b + 1),
{
    let g = 212 * a + 6313;
    assert(n * g == (n - 1) * g + g) by (nonlinear_arith);
    assert((n - 1) * g >= 0) by (nonlinear_arith)
        requires
            0 <= n - 1,
            0 <= g,
    ;
}

/// After any number of pushes and steps the energy is within what its root allows, and after the
/// first the rim is at rest.
proof fn lemma_hammered(
    h: Seq<Fixed>,
    prev: Seq<Fixed>,
    fields: Seq<Seq<Fixed>>,
    a: int,
    b: int,
    n: nat,
)
    requires
        h.len() == SIM_AREA,
        prev.len() == SIM_AREA,
        within(h, b),
        within(prev, b),
        gentle(h, prev, fields, a, n),
        0 <= a,
        0 <= b,
        22 * root_allowed(a, b, n as int) + a <= WIDEST,
    ensures
        ({
            let (x, y) = hammered(h, prev, fields, n);
            let r = if n == 0 {
                430 * b + 1
            } else {
                root_allowed(a, b, n as int)
            };
            &&& x.len() == SIM_AREA
            &&& y.len() == SIM_AREA
            &&& energy_of(x, y) <= (r * r) as real
            &&& n > 0 ==> rim_rests(x)
        }),
    decreases n,
{
    if n == 0 {
        law_a_bounded_field_has_little_energy(h, prev, b);
        let r = 430 * b + 1;
        assert(r * r == 184900 * (b * b) + 860 * b + 1) by (nonlinear_arith)
            requires
                r == 430 * b + 1,
        ;
        assert(b * b >= 0) by (nonlinear_arith);
        assert((5 * (b * b) * 36864) as real <= (r * r) as real);
    } else {
        let m = (n - 1) as nat;
        lemma_root_after_one_more(a, b, n as int);
        lemma_hammered(h, prev, fields, a, b, m);
        let (x, y) = hammered(h, prev, fields, m);
        assert(nudged(x, fields[m as int], a));
        let (c, r) = if m == 0 {
            (b, 430 * b + 1)
        } else {
            (0, root_allowed(a, b, m as int))
        };
        assert forall|k: int| 0 <= k < SIM_AREA && on_rim(k) implies -c <= (#[trigger] x[k]).raw
            <= c by {}
        lemma_push_and_step(x, y, fields[m as int], a, c, r);
        let s = r + 211 * a + 6102 + 211 * ((a + c) / 250 + 1);
        lemma_roots_grow(s, root_allowed(a, b, n as int));
    }
}

/// Pushed waves stay bounded: a field started within a height, and pushed before every step, stands
/// no higher than so many times that height and so many times each push, and what rounding adds.
/// With `b` the height the field and the one before it start within and `a` the most a push moves a
/// cell by, in steps of the numbers, no cell is further from rest after `n` pushes and steps than
/// `22 * (431 * (b + 1) + n * (212 * a + 6313))`, for as long as that is within the numbers.
pub proof fn law_pushed_waves_stay_bounded(
    h: Seq<Fixed>,
    prev: Seq<Fixed>,
    fields: Seq<Seq<Fixed>>,
    a: int,
    b: int,
    n: nat,
    k: int,
)
    requires
        h.len() == SIM_AREA,
        prev.len() == SIM_AREA,
        within(h, b),
        within(prev, b),
        gentle(h, prev, fields, a, n),
        0 <= a,
        0 <= b,
        22 * root_allowed(a, b, n as int) + a <= WIDEST,
        0 <= k < SIM_AREA,
    ensures
        ({
            let most = 22 * root_allowed(a, b, n as int);
            -most <= hammered(h, prev, fields, n).0[k].raw <= most
        }),
{
    lemma_hammered(h, prev, fields, a, b, n);
    let (x, y) = hammered(h, prev, fields, n);
    if n == 0 {
        assert(-b <= h[k].raw <= b);
    } else {
        lemma_root_after_one_more(a, b, n as int);
        if !on_rim(k) {
            lemma_height_in_root(x, y, root_allowed(a, b, n as int), k);
        }
    }
}

/// A push moves no cell by more than its amount, whatever shape its disc has, so long as cosines lie
/// between minus one and one.
pub proof fn law_a_push_moves_no_cell_further<F: Fn(Fixed) -> Fixed>(
    disc: Disc<Fixed>,
    amount: Fixed,
    cosine: F,
    before: Fixed,
    after: Fixed,
    k: int,
    a: int,
)
    requires
        push_at(disc, amount, cosine, before, after, k),
        forall|x: Fixed, c: Fixed| #[trigger]
            call_ensures(cosine, (x,), c) ==> -0x1_0000_0000 <= c.raw <= 0x1_0000_0000,
        -a <= amount.raw <= a,
    ensures
        before.raw - a <= after.raw <= before.raw + a,
{
    if disc.covers(k) {
        let c = choose|c: Fixed| #[trigger]
            call_ensures(cosine, (disc.phase(k),), c) && after == pushed(before, amount, c);
        assert(call_ensures(cosine, (disc.phase(k),), c));
        let (half, one) = (Fixed::frac(1, 2), int_of::<Fixed>(1));
        assert(half.raw == 0x8000_0000);
        assert(one.raw == 0x1_0000_0000);
        let raised = one + c;
        assert(raised.raw == 0x1_0000_0000 + c.raw);
        let p = half.raw * raised.raw;
        assert(p == 0x8000_0000 * raised.raw) by (nonlinear_arith)
            requires
                p == half.raw * raised.raw,
                half.raw == 0x8000_0000,
        ;
        let share = half * raised;
        assert(share == saturated(p / 0x1_0000_0000));
        assert(0 <= raised.raw <= 0x2_0000_0000);
        assert(0 <= p <= 0x1_0000_0000_0000_0000) by (nonlinear_arith)
            requires
                p == 0x8000_0000 * raised.raw,
                0 <= raised.raw <= 0x2_0000_0000,
        ;
        assert(0 <= p / 0x1_0000_0000 <= 0x1_0000_0000);
        assert(0 <= share.raw <= 0x1_0000_0000);
        let none = Fixed { raw: 0 };
        lemma_shares_stay_close(none, amount, share, a);
        assert(0 * share.raw == 0) by (nonlinear_arith);
        assert(none * share == saturated(0int / 0x1_0000_0000));
    }
}

} // verus!
