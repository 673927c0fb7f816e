//! Where a push lands: in the world, wherever the window is.
//!
//! The cells of the window are a quarter of a yard wide, and the window's corner is a whole number of
//! them, so in exact numbers the middle of a cell is exactly somewhere in the world. Everything here
//! is said of how far that is from the point that was aimed at.

use vstd::prelude::*;

use crate::fixed::{lemma_root_bounds, saturated, Fixed};
use crate::geometry::Vec2;
use crate::ripple_sim::{
    cell_at, col, corner_of, disc_hi, disc_lo, on_lattice, pi, push_at, pushed, row, sim_cell, Disc,
};
use crate::scalar::{int_of, Scalar};
use crate::stability::lemma_within_root;

verus! {

/// How far, in steps of the exact numbers, the middle of the window's column or row `n` is from a
/// coordinate of the world, where the window starts at the world's column or row `origin`. Columns
/// and rows are a quarter of a yard apart.
pub open spec fn away(origin: int, n: int, at: Fixed) -> int {
    (origin + n) * 0x4000_0000 + 0x2000_0000 - at.raw
}

/// The square of how far the middle of a cell is from a point of the world.
pub open spec fn away_squared(ox: int, oy: int, x: int, y: int, at: Vec2<Fixed>) -> int {
    away(ox, x, at.x) * away(ox, x, at.x) + away(oy, y, at.y) * away(oy, y, at.y)
}

/// Whether a point is within two hundred and fifty million yards of a window's corner, and a radius
/// is one that cells can be told apart by and no longer than four thousand yards.
pub open spec fn aimed(ox: int, oy: int, at: Vec2<Fixed>, radius: Fixed) -> bool {
    &&& i32::MIN <= ox <= i32::MAX
    &&& i32::MIN <= oy <= i32::MAX
    &&& -0x1000_0000_0000_0000 <= at.x.raw - ox * 0x4000_0000 <= 0x1000_0000_0000_0000
    &&& -0x1000_0000_0000_0000 <= at.y.raw - oy * 0x4000_0000 <= 0x1000_0000_0000_0000
    &&& 0x1_0000 <= radius.raw <= 0x1000_0000_0000
}

/// The disc of a push, in cells, exactly.
proof fn lemma_disc(ox: int, oy: int, at: Vec2<Fixed>, radius: Fixed)
    requires
        aimed(ox, oy, at, radius),
    ensures
        ({
            let disc = Disc::of(at, radius, corner_of::<Fixed>(ox, oy));
            &&& disc.c.x.raw == 4 * (at.x.raw - ox * 0x4000_0000)
            &&& disc.c.y.raw == 4 * (at.y.raw - oy * 0x4000_0000)
            &&& disc.r.raw == 4 * radius.raw
        }),
{
    let cell = sim_cell::<Fixed>();
    assert(int_of::<Fixed>(48).raw == 0x30_0000_0000);
    assert(int_of::<Fixed>(192).raw == 0xc0_0000_0000);
    assert(cell.raw == 0x4000_0000);
    let corner = corner_of::<Fixed>(ox, oy);
    lemma_corner(ox);
    lemma_corner(oy);
    lemma_in_cells(at.x - corner.x);
    lemma_in_cells(at.y - corner.y);
    lemma_in_cells(radius);
}

/// A whole number of cells, in yards.
proof fn lemma_corner(o: int)
    requires
        i32::MIN <= o <= i32::MAX,
    ensures
        (int_of::<Fixed>(o) * sim_cell::<Fixed>()).raw == o * 0x4000_0000,
{
    assert(int_of::<Fixed>(48).raw == 0x30_0000_0000);
    assert(int_of::<Fixed>(192).raw == 0xc0_0000_0000);
    assert(sim_cell::<Fixed>().raw == 0x4000_0000);
    assert(int_of::<Fixed>(o).raw == o * 0x1_0000_0000);
    assert((o * 0x1_0000_0000 * 0x4000_0000) / 0x1_0000_0000 == o * 0x4000_0000);
}

/// Yards in cells, of which four make one.
proof fn lemma_in_cells(v: Fixed)
    requires
        -0x1000_0000_0000_0000 <= v.raw <= 0x1000_0000_0000_0000,
    ensures
        (v / sim_cell::<Fixed>()).raw == 4 * v.raw,
{
    assert(int_of::<Fixed>(48).raw == 0x30_0000_0000);
    assert(int_of::<Fixed>(192).raw == 0xc0_0000_0000);
    assert(sim_cell::<Fixed>().raw == 0x4000_0000);
    assert((v.raw * 0x1_0000_0000) / 0x4000_0000 == 4 * v.raw);
}

/// The square of a distance in cells, cut at the end of the numbers.
spec fn part(d: int) -> int {
    let q = (16 * (d * d)) / 0x1_0000_0000;
    if q > i64::MAX {
        i64::MAX as int
    } else {
        q
    }
}

proof fn lemma_part(v: Fixed, d: int)
    requires
        v.raw == 4 * d,
    ensures
        (v * v).raw == part(d),
        0 <= part(d),
{
    assert((4 * d) * (4 * d) == 16 * (d * d)) by (nonlinear_arith);
    assert(d * d >= 0) by (nonlinear_arith);
}

/// How far off a cell is, in the disc's own terms.
proof fn lemma_offset(ox: int, oy: int, at: Vec2<Fixed>, radius: Fixed, x: int, y: int)
    requires
        aimed(ox, oy, at, radius),
        on_lattice(x, y),
    ensures
        ({
            let disc = Disc::of(at, radius, corner_of::<Fixed>(ox, oy));
            let whole = part(away(ox, x, at.x)) + part(away(oy, y, at.y));
            &&& col(cell_at(x, y)) == x
            &&& row(cell_at(x, y)) == y
            &&& disc.offset(cell_at(x, y)).raw == if whole > i64::MAX {
                i64::MAX as int
            } else {
                whole
            }
            &&& (disc.r * disc.r).raw == part(radius.raw as int)
            &&& 0 < part(radius.raw as int) < i64::MAX
            &&& 0 <= part(away(ox, x, at.x))
            &&& 0 <= part(away(oy, y, at.y))
        }),
{
    let disc = Disc::of(at, radius, corner_of::<Fixed>(ox, oy));
    lemma_disc(ox, oy, at, radius);
    let k = cell_at(x, y);
    assert(k % 192 == x && k / 192 == y);
    let half = Fixed::frac(1, 2);
    assert(half.raw == 0x8000_0000);
    assert(int_of::<Fixed>(x).raw == x * 0x1_0000_0000);
    assert(int_of::<Fixed>(y).raw == y * 0x1_0000_0000);
    let dx = int_of::<Fixed>(x) + half - disc.c.x;
    let dy = int_of::<Fixed>(y) + half - disc.c.y;
    assert(dx.raw == 4 * away(ox, x, at.x));
    assert(dy.raw == 4 * away(oy, y, at.y));
    lemma_part(dx, away(ox, x, at.x));
    lemma_part(dy, away(oy, y, at.y));
    lemma_part(disc.r, radius.raw as int);
    let r = radius.raw as int;
    assert(0x1_0000_0000 <= r * r <= 0x100_0000_0000_0000_0000_0000) by (nonlinear_arith)
        requires
            0x1_0000 <= r <= 0x1000_0000_0000,
    ;
}

/// A push moves nothing outside its radius: a cell it covers has its middle within the radius of the
/// point aimed at, in the world, but for what the numbers round. A cell it does not cover is left as
/// it was.
pub proof fn law_a_push_reaches_no_further<F: Fn(Fixed) -> Fixed>(
    ox: int,
    oy: int,
    at: Vec2<Fixed>,
    radius: Fixed,
    amount: Fixed,
    cosine: F,
    x: int,
    y: int,
    before: Fixed,
    after: Fixed,
)
    requires
        aimed(ox, oy, at, radius),
        on_lattice(x, y),
        push_at(
            Disc::of(at, radius, corner_of::<Fixed>(ox, oy)),
            amount,
            cosine,
            before,
            after,
            192 * y + x,
        ),
    ensures
        after != before ==> away_squared(ox, oy, x, y, at) <= radius.raw * radius.raw + 0x2000_0000,
{
    let disc = Disc::of(at, radius, corner_of::<Fixed>(ox, oy));
    let k = cell_at(x, y);
    assert(k == 192 * y + x);
    lemma_offset(ox, oy, at, radius, x, y);
    if disc.covers(k) {
        let (p, q, s) = (
            away(ox, x, at.x) * away(ox, x, at.x),
            away(oy, y, at.y) * away(oy, y, at.y),
            radius.raw * radius.raw,
        );
        assert(disc.offset(k).raw <= (disc.r * disc.r).raw);
        assert((16 * p) / 0x1_0000_0000 + (16 * q) / 0x1_0000_0000 <= (16 * s) / 0x1_0000_0000);
    }
}

/// A push moves everything well inside its radius: a cell whose middle is within the radius of the
/// point aimed at, in the world, but for what the numbers round, is pushed down by the amount's
/// raised cosine.
pub proof fn law_a_push_reaches_all_within<F: Fn(Fixed) -> Fixed>(
    ox: int,
    oy: int,
    at: Vec2<Fixed>,
    radius: Fixed,
    amount: Fixed,
    cosine: F,
    x: int,
    y: int,
    before: Fixed,
    after: Fixed,
)
    requires
        aimed(ox, oy, at, radius),
        on_lattice(x, y),
        push_at(
            Disc::of(at, radius, corner_of::<Fixed>(ox, oy)),
            amount,
            cosine,
            before,
            after,
            192 * y + x,
        ),
        away_squared(ox, oy, x, y, at) + 0x1000_0000 <= radius.raw * radius.raw,
    ensures
        exists|angle: Fixed, cos: Fixed| #[trigger]
            call_ensures(cosine, (angle,), cos) && after == pushed(before, amount, cos),
{
    let disc = Disc::of(at, radius, corner_of::<Fixed>(ox, oy));
    let k = cell_at(x, y);
    assert(k == 192 * y + x);
    lemma_covers(ox, oy, at, radius, x, y);
    let cos = choose|cos: Fixed| #[trigger]
        call_ensures(cosine, (disc.phase(k),), cos) && after == pushed(before, amount, cos);
    assert(call_ensures(cosine, (disc.phase(k),), cos));
}

/// A cell well within the radius is covered.
proof fn lemma_covers(ox: int, oy: int, at: Vec2<Fixed>, radius: Fixed, x: int, y: int)
    requires
        aimed(ox, oy, at, radius),
        on_lattice(x, y),
        away_squared(ox, oy, x, y, at) + 0x1000_0000 <= radius.raw * radius.raw,
    ensures
        Disc::of(at, radius, corner_of::<Fixed>(ox, oy)).covers(cell_at(x, y)),
{
    let disc = Disc::of(at, radius, corner_of::<Fixed>(ox, oy));
    lemma_offset(ox, oy, at, radius, x, y);
    lemma_disc(ox, oy, at, radius);
    let (a, b, r) = (away(ox, x, at.x), away(oy, y, at.y), radius.raw as int);
    let (p, q, s) = (a * a, b * b, r * r);
    assert(p >= 0) by (nonlinear_arith)
        requires
            p == a * a,
    ;
    assert(q >= 0) by (nonlinear_arith)
        requires
            q == b * b,
    ;
    assert(0 < s <= 0x100_0000_0000_0000_0000_0000) by (nonlinear_arith)
        requires
            s == r * r,
            0 < r <= 0x1000_0000_0000,
    ;
    assert((16 * p) / 0x1_0000_0000 + (16 * q) / 0x1_0000_0000 <= (16 * s) / 0x1_0000_0000);
    lemma_within_root(a, r);
    lemma_within_root(b, r);
    lemma_reached(disc.c.x, disc.r, x);
    lemma_reached(disc.c.y, disc.r, y);
}

/// A column whose middle is no further than the radius is between the first and the last reached.
proof fn lemma_reached(c: Fixed, r: Fixed, n: int)
    requires
        0 <= n < 192,
        0 <= r.raw <= 0x4000_0000_0000,
        -r.raw <= n * 0x1_0000_0000 + 0x8000_0000 - c.raw <= r.raw,
    ensures
        disc_lo(c, r) <= n <= disc_hi(c, r),
{
    lemma_lo(c, r, n);
    lemma_hi(c, r, n);
}

/// When a column is at or after the first reached.
proof fn lemma_lo(c: Fixed, r: Fixed, n: int)
    requires
        0 <= n < 192,
        0 <= r.raw <= 0x4000_0000_0000,
        -0x4000_0000_0000_0000 <= c.raw <= 0x4000_0000_0000_0000,
    ensures
        disc_lo(c, r) <= n <==> (c.raw - r.raw) / 0x1_0000_0000 <= n,
{
    let low = c - r;
    assert(low.raw == c.raw - r.raw);
    let f = low.raw as int / 0x1_0000_0000;
    assert(low.floored().raw == f * 0x1_0000_0000);
    assert(int_of::<Fixed>(0).raw == 0);
    let g = low.floored().greater(int_of::<Fixed>(0));
    if f > 0 {
        assert(g.raw as int / 0x1_0000_0000 == f);
        assert(f <= 0x4000_0000);
        assert(g.whole() == f);
    } else {
        assert(g.raw == 0);
        assert(g.whole() == 0);
    }
}

/// When a column is at or before the last reached.
proof fn lemma_hi(c: Fixed, r: Fixed, n: int)
    requires
        0 <= n < 192,
        0 <= r.raw <= 0x4000_0000_0000,
        -0x4000_0000_0000_0000 <= c.raw <= 0x4000_0000_0000_0000,
    ensures
        n <= disc_hi(c, r) <==> n <= -((-(c.raw + r.raw)) / 0x1_0000_0000),
{
    let high = c + r;
    assert(high.raw == c.raw + r.raw);
    let f = -((-high.raw) / 0x1_0000_0000);
    assert(high.ceiled().raw == f * 0x1_0000_0000);
    assert(int_of::<Fixed>(191).raw == 0xbf_0000_0000);
    let g = high.ceiled().lesser(int_of::<Fixed>(191));
    if f < 191 {
        assert(g.raw == f * 0x1_0000_0000);
        assert(-0x4000_0001 <= f);
        assert(g.whole() == f);
    } else {
        assert(g.raw == 0xbf_0000_0000);
        assert(g.whole() == 191);
    }
}

/// A push is of the world, not of the window: a cell of the world is pushed alike whichever window it
/// is seen in. So moving the window and then pushing comes to what pushing and then moving does,
/// wherever a cell is in both.
pub proof fn law_a_push_is_of_the_world<F: Fn(Fixed) -> Fixed>(
    ox: int,
    oy: int,
    dx: int,
    dy: int,
    at: Vec2<Fixed>,
    radius: Fixed,
    amount: Fixed,
    cosine: F,
    x: int,
    y: int,
    before: Fixed,
    after: Fixed,
)
    requires
        aimed(ox, oy, at, radius),
        aimed(ox + dx, oy + dy, at, radius),
        on_lattice(x, y),
        on_lattice(x - dx, y - dy),
    ensures
        push_at(
            Disc::of(at, radius, corner_of::<Fixed>(ox, oy)),
            amount,
            cosine,
            before,
            after,
            192 * y + x,
        ) <==> push_at(
            Disc::of(at, radius, corner_of::<Fixed>(ox + dx, oy + dy)),
            amount,
            cosine,
            before,
            after,
            192 * (y - dy) + (x - dx),
        ),
{
    let (a, b) = (
        Disc::of(at, radius, corner_of::<Fixed>(ox, oy)),
        Disc::of(at, radius, corner_of::<Fixed>(ox + dx, oy + dy)),
    );
    let (j, k) = (cell_at(x, y), cell_at(x - dx, y - dy));
    assert(j == 192 * y + x);
    assert(k == 192 * (y - dy) + (x - dx));
    lemma_offset(ox, oy, at, radius, x, y);
    lemma_offset(ox + dx, oy + dy, at, radius, x - dx, y - dy);
    assert(a.offset(j) == b.offset(k));
    lemma_disc(ox, oy, at, radius);
    lemma_disc(ox + dx, oy + dy, at, radius);
    assert(a.r == b.r);
    lemma_lo(a.c.x, a.r, x);
    lemma_lo(a.c.y, a.r, y);
    lemma_hi(a.c.x, a.r, x);
    lemma_hi(a.c.y, a.r, y);
    lemma_lo(b.c.x, b.r, x - dx);
    lemma_lo(b.c.y, b.r, y - dy);
    lemma_hi(b.c.x, b.r, x - dx);
    lemma_hi(b.c.y, b.r, y - dy);
    assert(a.covers(j) == b.covers(k));
    assert(a.phase(j) == b.phase(k));
}

/// Roots keep order.
proof fn lemma_roots_keep_order(a: Fixed, b: Fixed)
    requires
        0 <= a.raw <= b.raw,
    ensures
        0 <= a.root().raw <= b.root().raw,
{
    if a.raw > 0 {
        lemma_root_bounds(a);
        lemma_root_bounds(b);
        let (m, n) = (a.root().raw as int, b.root().raw as int);
        if m > n {
            assert((n + 1) * (n + 1) <= m * m) by (nonlinear_arith)
                requires
                    0 <= n < m,
            ;
        }
    } else if b.raw > 0 {
        lemma_root_bounds(b);
    }
}

/// Products with a number that is not negative keep order.
proof fn lemma_products_keep_order(k: Fixed, a: Fixed, b: Fixed)
    requires
        0 <= k.raw,
        a.raw <= b.raw,
    ensures
        (k * a).raw <= (k * b).raw,
{
    let (p, q) = (k.raw * a.raw, k.raw * b.raw);
    assert(p <= q) by (nonlinear_arith)
        requires
            p == k.raw * a.raw,
            q == k.raw * b.raw,
            0 <= k.raw,
            a.raw <= b.raw,
    ;
    assert(p / 0x1_0000_0000 <= q / 0x1_0000_0000);
    assert(k * a == saturated(p / 0x1_0000_0000));
    assert(k * b == saturated(q / 0x1_0000_0000));
}

/// Quotients by a positive number keep order.
proof fn lemma_quotients_keep_order(a: Fixed, b: Fixed, k: Fixed)
    requires
        0 < k.raw,
        0 <= a.raw <= b.raw,
    ensures
        0 <= (a / k).raw <= (b / k).raw,
{
    let (p, q, d) = (a.raw * 0x1_0000_0000, b.raw * 0x1_0000_0000, k.raw as int);
    vstd::arithmetic::div_mod::lemma_div_is_ordered(p, q, d);
    vstd::arithmetic::div_mod::lemma_div_pos_is_pos(p, d);
    assert(a / k == saturated(p / d));
    assert(b / k == saturated(q / d));
}

/// Whether a function of angles is one that falls from one to minus one.
pub open spec fn falls<F: Fn(Fixed) -> Fixed>(cosine: F) -> bool {
    &&& forall|a: Fixed, c: Fixed| #[trigger]
        call_ensures(cosine, (a,), c) ==> -0x1_0000_0000 <= c.raw <= 0x1_0000_0000
    &&& forall|a: Fixed, b: Fixed, c: Fixed, d: Fixed|
        #![trigger call_ensures(cosine, (a,), c), call_ensures(cosine, (b,), d)]
        a.raw <= b.raw && call_ensures(cosine, (a,), c) && call_ensures(cosine, (b,), d) ==> d.raw
            <= c.raw
}

/// What a raised cosine pushes a cell down by.
proof fn lemma_sinks(before: Fixed, amount: Fixed, cos: Fixed) -> (drop: Fixed)
    requires
        0 <= amount.raw <= 0x1000_0000_0000_0000,
        -0x1000_0000_0000_0000 <= before.raw <= 0x1000_0000_0000_0000,
        -0x1_0000_0000 <= cos.raw <= 0x1_0000_0000,
    ensures
        drop == amount * (Fixed { raw: (0x8000_0000 + cos.raw as int / 2) as i64 }),
        0 <= drop.raw <= amount.raw,
        pushed(before, amount, cos).raw == before.raw - drop.raw,
        cos.raw == 0x1_0000_0000 ==> drop == amount,
        cos.raw == -0x1_0000_0000 ==> drop.raw == 0,
{
    let (half, one) = (Fixed::frac(1, 2), int_of::<Fixed>(1));
    assert(half.raw == 0x8000_0000);
    assert(one.raw == 0x1_0000_0000);
    let raised = one + cos;
    let share = half * raised;
    assert((0x8000_0000 * raised.raw) / 0x1_0000_0000 == raised.raw as int / 2);
    assert(share.raw == 0x8000_0000 + cos.raw as int / 2);
    let p = amount.raw * share.raw;
    assert(0 <= p <= amount.raw * 0x1_0000_0000) by (nonlinear_arith)
        requires
            p == amount.raw * share.raw,
            0 <= amount.raw,
            0 <= share.raw <= 0x1_0000_0000,
    ;
    let drop = amount * share;
    assert(drop == saturated(p / 0x1_0000_0000));
    if cos.raw == 0x1_0000_0000 {
        assert(p == amount.raw * 0x1_0000_0000) by (nonlinear_arith)
            requires
                p == amount.raw * share.raw,
                share.raw == 0x1_0000_0000,
        ;
    }
    if cos.raw == -0x1_0000_0000 {
        assert(p == 0) by (nonlinear_arith)
            requires
                p == amount.raw * share.raw,
                share.raw == 0,
        ;
    }
    drop
}

/// A push presses down, fully where the cosine is one and not at all where it is minus one.
pub proof fn law_a_push_presses_down(before: Fixed, amount: Fixed, cos: Fixed)
    requires
        0 <= amount.raw <= 0x1000_0000_0000_0000,
        -0x1000_0000_0000_0000 <= before.raw <= 0x1000_0000_0000_0000,
        -0x1_0000_0000 <= cos.raw <= 0x1_0000_0000,
    ensures
        before.raw - amount.raw <= pushed(before, amount, cos).raw <= before.raw,
        cos.raw == 0x1_0000_0000 ==> pushed(before, amount, cos).raw == before.raw - amount.raw,
        cos.raw == -0x1_0000_0000 ==> pushed(before, amount, cos) == before,
{
    let drop = lemma_sinks(before, amount, cos);
}

/// A push sinks deepest at the point it is aimed at: of two cells the one nearer that point in the
/// world, by more than the numbers round, sinks at least as far. In particular none sinks further
/// than the cell nearest the point.
pub proof fn law_a_push_sinks_deepest_where_aimed<F: Fn(Fixed) -> Fixed>(
    ox: int,
    oy: int,
    at: Vec2<Fixed>,
    radius: Fixed,
    amount: Fixed,
    cosine: F,
    near: (int, int),
    far: (int, int),
    before: (Fixed, Fixed),
    after: (Fixed, Fixed),
)
    requires
        aimed(ox, oy, at, radius),
        on_lattice(near.0, near.1),
        on_lattice(far.0, far.1),
        falls(cosine),
        0 <= amount.raw <= 0x1000_0000_0000_0000,
        -0x1000_0000_0000_0000 <= before.0.raw <= 0x1000_0000_0000_0000,
        -0x1000_0000_0000_0000 <= before.1.raw <= 0x1000_0000_0000_0000,
        push_at(
            Disc::of(at, radius, corner_of::<Fixed>(ox, oy)),
            amount,
            cosine,
            before.0,
            after.0,
            192 * near.1 + near.0,
        ),
        push_at(
            Disc::of(at, radius, corner_of::<Fixed>(ox, oy)),
            amount,
            cosine,
            before.1,
            after.1,
            192 * far.1 + far.0,
        ),
        away_squared(ox, oy, near.0, near.1, at) + 0x3000_0000 <= away_squared(
            ox,
            oy,
            far.0,
            far.1,
            at,
        ),
    ensures
        0 <= before.1.raw - after.1.raw <= before.0.raw - after.0.raw,
{
    let disc = Disc::of(at, radius, corner_of::<Fixed>(ox, oy));
    let (j, k) = (cell_at(near.0, near.1), cell_at(far.0, far.1));
    assert(j == 192 * near.1 + near.0);
    assert(k == 192 * far.1 + far.0);
    lemma_offset(ox, oy, at, radius, near.0, near.1);
    lemma_offset(ox, oy, at, radius, far.0, far.1);
    let (a, b) = (away(ox, near.0, at.x), away(oy, near.1, at.y));
    let (c, d) = (away(ox, far.0, at.x), away(oy, far.1, at.y));
    let (p, q, s, t) = (a * a, b * b, c * c, d * d);
    assert((16 * p) / 0x1_0000_0000 + (16 * q) / 0x1_0000_0000 < (16 * s) / 0x1_0000_0000 + (16 * t)
        / 0x1_0000_0000);
    assert(disc.offset(j).raw <= disc.offset(k).raw);
    if disc.covers(k) {
        let r = radius.raw as int;
        assert((16 * s) / 0x1_0000_0000 + (16 * t) / 0x1_0000_0000 <= (16 * (r * r))
            / 0x1_0000_0000);
        assert(p + q + 0x1000_0000 <= r * r);
        lemma_covers(ox, oy, at, radius, near.0, near.1);
        let rr = disc.r * disc.r;
        lemma_quotients_keep_order(disc.offset(j), disc.offset(k), rr);
        lemma_roots_keep_order(disc.offset(j) / rr, disc.offset(k) / rr);
        assert(pi::<Fixed>().raw >= 0);
        lemma_products_keep_order(
            pi::<Fixed>(),
            (disc.offset(j) / rr).root(),
            (disc.offset(k) / rr).root(),
        );
        assert(disc.phase(j).raw <= disc.phase(k).raw);
        let u = choose|u: Fixed| #[trigger]
            call_ensures(cosine, (disc.phase(j),), u) && after.0 == pushed(before.0, amount, u);
        let v = choose|v: Fixed| #[trigger]
            call_ensures(cosine, (disc.phase(k),), v) && after.1 == pushed(before.1, amount, v);
        assert(call_ensures(cosine, (disc.phase(j),), u));
        assert(call_ensures(cosine, (disc.phase(k),), v));
        let m = lemma_sinks(before.0, amount, u);
        let n = lemma_sinks(before.1, amount, v);
        lemma_products_keep_order(
            amount,
            Fixed { raw: (0x8000_0000 + v.raw as int / 2) as i64 },
            Fixed { raw: (0x8000_0000 + u.raw as int / 2) as i64 },
        );
    } else if disc.covers(j) {
        let u = choose|u: Fixed| #[trigger]
            call_ensures(cosine, (disc.phase(j),), u) && after.0 == pushed(before.0, amount, u);
        assert(call_ensures(cosine, (disc.phase(j),), u));
        let m = lemma_sinks(before.0, amount, u);
    }
}

} // verus!
