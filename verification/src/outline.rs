//! Where a traced line runs, and what is nearest on it, in whole steps of the exact numbers.

use vstd::prelude::*;

use crate::contour::{
    contour, crossing, crossings, edge_crossing, law_a_line_parts_the_signs, Sample, Segment,
};
use crate::fixed::{lemma_root_bounds, saturated, Fixed};
use crate::geometry::{Vec2, Vec3};
use crate::liquid_mesh::LiquidMesh;
use crate::scalar::{int_of, mixed, Scalar};
use crate::shoreline::{nearest_on, share_along};
use crate::waterline::{
    depth_sample, first_under, grounded, row_line, rows_line, sample_point, samples, square_line,
    waterline,
};
use crate::wet_lattice::{cell_edge, cells_edge, corner_sample, Cells};

verus! {

/// The magnitude of a whole number.
pub open spec fn size(n: int) -> int {
    if n < 0 {
        -n
    } else {
        n
    }
}

/// Whether a number is no further than a million million steps from nothing: some two hundred and
/// fifty thousand yards.
pub open spec fn near_home(v: Fixed) -> bool {
    -0x4_0000_0000_0000 <= v.raw <= 0x4_0000_0000_0000
}

/// Whether `e` is the share `m` of `whole` of the way `d`, but for what rounding down takes: one step,
/// and one for each whole of the way.
pub open spec fn is_share(e: int, d: int, m: int, whole: int) -> bool {
    let most = whole * 0x1_0000_0000 + size(d) * whole;
    -most <= (d * m - e * whole) * 0x1_0000_0000 <= most
}

/// The share of the way a quotient stands for.
proof fn lemma_share_of_way(d: int, m: int, whole: int, t: int, e: int)
    requires
        0 <= m <= whole,
        0 < whole <= 0x1_0000_0000_0000_0000,
        t == (m * 0x1_0000_0000) / whole,
        e == (d * t) / 0x1_0000_0000,
    ensures
        0 <= t <= 0x1_0000_0000,
        0 <= d ==> 0 <= e <= d,
        d <= 0 ==> d <= e <= 0,
        (d * m - e * whole) * 0x1_0000_0000 <= whole * 0x1_0000_0000 + size(d) * whole,
        -(size(d) * whole) <= (d * m - e * whole) * 0x1_0000_0000,
{
    let n = m * 0x1_0000_0000;
    vstd::arithmetic::div_mod::lemma_fundamental_div_mod(n, whole);
    vstd::arithmetic::div_mod::lemma_mod_bound(n, whole);
    let r = n % whole;
    assert(n == whole * t + r);
    assert(0 <= t) by (nonlinear_arith)
        requires
            n == whole * t + r,
            0 <= n,
            r < whole,
            0 < whole,
    ;
    assert(t <= 0x1_0000_0000) by (nonlinear_arith)
        requires
            n == whole * t + r,
            n <= whole * 0x1_0000_0000,
            0 <= r,
            0 < whole,
    ;
    let p = d * t;
    let q = p % 0x1_0000_0000;
    assert(p == 0x1_0000_0000 * e + q);
    if 0 <= d {
        assert(0 <= p <= d * 0x1_0000_0000) by (nonlinear_arith)
            requires
                p == d * t,
                0 <= d,
                0 <= t <= 0x1_0000_0000,
        ;
    }
    if d <= 0 {
        assert(d * 0x1_0000_0000 <= p <= 0) by (nonlinear_arith)
            requires
                p == d * t,
                d <= 0,
                0 <= t <= 0x1_0000_0000,
        ;
    }
    // The way times the share, less what was reached, is what the two roundings took.
    assert((d * m - e * whole) * 0x1_0000_0000 == d * r + q * whole) by (nonlinear_arith)
        requires
            m * 0x1_0000_0000 == whole * t + r,
            d * t == 0x1_0000_0000 * e + q,
    ;
    assert(0 <= q * whole <= whole * 0x1_0000_0000) by (nonlinear_arith)
        requires
            0 <= q <= 0x1_0000_0000,
            0 < whole,
    ;
    let s = size(d);
    assert(-(s * whole) <= d * r <= s * whole) by (nonlinear_arith)
        requires
            -s <= d <= s,
            0 <= r <= whole,
            0 <= s,
    ;
}

/// Where a line crosses an edge of a square is as far along from either end as the field there says:
/// between the two ends, and at the share of the way that the first value is of both together. All
/// that is left out is what rounding takes.
pub proof fn law_a_crossing_is_where_the_field_is_nothing(a: Sample<Fixed>, b: Sample<Fixed>)
    requires
        a.value.raw > 0 && b.value.raw <= 0 || a.value.raw <= 0 && b.value.raw > 0,
        near_home(a.value),
        near_home(b.value),
        near_home(a.at.x),
        near_home(a.at.y),
        near_home(b.at.x),
        near_home(b.at.y),
    ensures
        ({
            let c = crossing(a, b);
            let (m, whole) = (
                size(a.value.raw as int),
                size(a.value.raw as int) + size(b.value.raw as int),
            );
            &&& is_share(c.x.raw - a.at.x.raw, b.at.x.raw - a.at.x.raw, m, whole)
            &&& is_share(c.y.raw - a.at.y.raw, b.at.y.raw - a.at.y.raw, m, whole)
            &&& a.at.x.raw <= b.at.x.raw ==> a.at.x.raw <= c.x.raw <= b.at.x.raw
            &&& b.at.x.raw <= a.at.x.raw ==> b.at.x.raw <= c.x.raw <= a.at.x.raw
            &&& a.at.y.raw <= b.at.y.raw ==> a.at.y.raw <= c.y.raw <= b.at.y.raw
            &&& b.at.y.raw <= a.at.y.raw ==> b.at.y.raw <= c.y.raw <= a.at.y.raw
        }),
{
    let (m, whole) = (
        size(a.value.raw as int),
        size(a.value.raw as int) + size(b.value.raw as int),
    );
    let t = a.value / (a.value - b.value);
    lemma_crossed(a.at.x, b.at.x, m, whole);
    lemma_crossed(a.at.y, b.at.y, m, whole);
    let q = (m * 0x1_0000_0000) / whole;
    if a.value.raw > 0 {
        assert((a.value - b.value).raw == whole);
    } else {
        assert((a.value - b.value).raw == -whole);
        assert(-a.value.raw * 0x1_0000_0000 == m * 0x1_0000_0000);
    }
    assert(t.raw == q);
}

proof fn lemma_crossed(a: Fixed, b: Fixed, m: int, whole: int)
    requires
        near_home(a),
        near_home(b),
        0 <= m <= whole,
        0 < whole <= 0x8_0000_0000_0000,
    ensures
        ({
            let t = (m * 0x1_0000_0000) / whole;
            let c = mixed(a, b, Fixed { raw: t as i64 });
            &&& 0 <= t <= 0x1_0000_0000
            &&& is_share(c.raw - a.raw, b.raw - a.raw, m, whole)
            &&& a.raw <= b.raw ==> a.raw <= c.raw <= b.raw
            &&& b.raw <= a.raw ==> b.raw <= c.raw <= a.raw
        }),
{
    let t = (m * 0x1_0000_0000) / whole;
    let d = b.raw - a.raw;
    let e = (d * t) / 0x1_0000_0000;
    lemma_share_of_way(d, m, whole, t, e);
    assert((b - a).raw == d);
    let share = Fixed { raw: t as i64 };
    assert((b - a) * share == saturated(e));
    let c = mixed(a, b, share);
    assert(c.raw == a.raw + e);
}

/// Whether a point is an end of one of a run of pieces of line.
pub open spec fn ends_a_piece<S: Scalar>(line: Seq<Segment<S>>, p: Vec2<S>) -> bool {
    exists|i: int| 0 <= i < line.len() && ((#[trigger] line[i]).a == p || line[i].b == p)
}

/// The pieces of line inside a square run from one side of it to another: every side whose ends lie on
/// either side of the line has a piece's end where the line crosses it, and a piece has no other ends.
pub proof fn law_the_line_runs_between_the_sides_it_crosses<S: Scalar>(
    a: Sample<S>,
    b: Sample<S>,
    c: Sample<S>,
    d: Sample<S>,
)
    ensures
        a.positive() != b.positive() ==> ends_a_piece(contour(a, b, c, d), crossing(a, b)),
        b.positive() != c.positive() ==> ends_a_piece(contour(a, b, c, d), crossing(b, c)),
        c.positive() != d.positive() ==> ends_a_piece(contour(a, b, c, d), crossing(c, d)),
        d.positive() != a.positive() ==> ends_a_piece(contour(a, b, c, d), crossing(d, a)),
        forall|p: Vec2<S>| #[trigger]
            ends_a_piece(contour(a, b, c, d), p) ==> {
                ||| a.positive() != b.positive() && p == crossing(a, b)
                ||| b.positive() != c.positive() && p == crossing(b, c)
                ||| c.positive() != d.positive() && p == crossing(c, d)
                ||| d.positive() != a.positive() && p == crossing(d, a)
            },
{
    let line = contour(a, b, c, d);
    let x = crossings(a, b, c, d);
    if x.len() == 2 {
        assert(line[0].a == x[0] && line[0].b == x[1]);
    } else if x.len() == 4 {
        assert(line[0].a == x[0] && line[0].b == x[1]);
        assert(line[1].a == x[2] && line[1].b == x[3]);
    }
}

/// The field that is traced is how deep the water is: a sample is above the line exactly where the
/// surface stands higher than the ground, and it is where the surface is.
pub proof fn law_the_traced_field_is_the_depth(p: Vec3<Fixed>, ground: Fixed)
    requires
        near_home(p.z),
        near_home(ground),
    ensures
        depth_sample(p, ground).value.raw == p.z.raw - ground.raw,
        depth_sample(p, ground).positive() <==> ground.raw < p.z.raw,
        depth_sample(p, ground).at.x == p.x,
        depth_sample(p, ground).at.y == p.y,
{
    assert(int_of::<Fixed>(0).raw == 0);
}

/// Whether two points are within eight thousand yards of each other on either axis.
pub open spec fn close(a: Vec2<Fixed>, b: Vec2<Fixed>) -> bool {
    &&& -0x2000_0000_0000 <= a.x.raw - b.x.raw <= 0x2000_0000_0000
    &&& -0x2000_0000_0000 <= a.y.raw - b.y.raw <= 0x2000_0000_0000
}

/// Whether a point's coordinates are near home.
pub open spec fn at_home(p: Vec2<Fixed>) -> bool {
    near_home(p.x) && near_home(p.y)
}

/// A product in whole steps, rounded down.
proof fn lemma_times(x: Fixed, y: Fixed)
    requires
        -0x4000_0000_0000 <= x.raw <= 0x4000_0000_0000,
        -0x4000_0000_0000 <= y.raw <= 0x4000_0000_0000,
    ensures
        (x * y).raw * 0x1_0000_0000 <= x.raw * y.raw < ((x * y).raw + 1) * 0x1_0000_0000,
        -0x1000_0000_0000_0000 <= (x * y).raw <= 0x1000_0000_0000_0000,
{
    let p = x.raw * y.raw;
    assert(-0x1000_0000_0000_0000_0000_0000 <= p <= 0x1000_0000_0000_0000_0000_0000)
        by (nonlinear_arith)
        requires
            p == x.raw * y.raw,
            -0x4000_0000_0000 <= x.raw <= 0x4000_0000_0000,
            -0x4000_0000_0000 <= y.raw <= 0x4000_0000_0000,
    ;
    assert(x * y == saturated(p / 0x1_0000_0000));
}

/// A length squared is the sum of its parts squared, but for what rounding down takes.
pub proof fn law_a_length_is_of_both_parts(v: Vec2<Fixed>)
    requires
        -0x4000_0000_0000 <= v.x.raw <= 0x4000_0000_0000,
        -0x4000_0000_0000 <= v.y.raw <= 0x4000_0000_0000,
    ensures
        ({
            let (d, s) = (v.measure().raw as int, v.x.raw * v.x.raw + v.y.raw * v.y.raw);
            &&& 0 <= d
            &&& d * d <= s < (d + 1) * (d + 1) + 0x2_0000_0000
        }),
{
    lemma_times(v.x, v.x);
    lemma_times(v.y, v.y);
    let q = v.square();
    let (p, r) = ((v.x * v.x).raw as int, (v.y * v.y).raw as int);
    let (xx, yy) = (v.x.raw * v.x.raw, v.y.raw * v.y.raw);
    assert(xx >= 0) by (nonlinear_arith)
        requires
            xx == v.x.raw * v.x.raw,
    ;
    assert(yy >= 0) by (nonlinear_arith)
        requires
            yy == v.y.raw * v.y.raw,
    ;
    assert(q.raw == p + r);
    if q.raw > 0 {
        lemma_root_bounds(q);
    }
}

/// The share of the way along a piece that is nearest a point, in whole steps.
proof fn lemma_share_along(s: Segment<Fixed>, p: Vec2<Fixed>) -> (t: int)
    requires
        at_home(s.a),
        at_home(s.b),
        at_home(p),
        close(s.b, s.a),
        close(p, s.a),
    ensures
        t == share_along(s, p).raw,
        0 <= t <= 0x1_0000_0000,
        ({
            let (vx, vy) = (s.b.x.raw - s.a.x.raw, s.b.y.raw - s.a.y.raw);
            let (wx, wy) = (p.x.raw - s.a.x.raw, p.y.raw - s.a.y.raw);
            let (square, ahead) = (vx * vx + vy * vy, wx * vx + wy * vy);
            &&& t < 0x1_0000_0000 && 0x2_0000_0000 <= square ==> ahead * 0x1_0000_0000 - square * t
                <= 0x2_0000_0000_0000_0000 + square
            &&& 0 < t ==> ahead * 0x1_0000_0000 - square * t >= -0x2_0000_0000_0000_0000
            &&& 0 <= square
        }),
{
    let v = s.b - s.a;
    let (wx, wy) = (p.x - s.a.x, p.y - s.a.y);
    lemma_times(v.x, v.x);
    lemma_times(v.y, v.y);
    lemma_times(wx, v.x);
    lemma_times(wy, v.y);
    let (xx, yy) = (v.x.raw * v.x.raw, v.y.raw * v.y.raw);
    assert(xx >= 0) by (nonlinear_arith)
        requires
            xx == v.x.raw * v.x.raw,
    ;
    assert(yy >= 0) by (nonlinear_arith)
        requires
            yy == v.y.raw * v.y.raw,
    ;
    let (square, ahead) = (xx + yy, wx.raw * v.x.raw + wy.raw * v.y.raw);
    let len2 = v.square();
    let l = len2.raw as int;
    assert(l == (v.x * v.x).raw + (v.y * v.y).raw);
    let dot = wx * v.x + wy * v.y;
    let d = dot.raw as int;
    assert(d == (wx * v.x).raw + (wy * v.y).raw);
    assert(0 <= l && l * 0x1_0000_0000 <= square < (l + 2) * 0x1_0000_0000);
    assert(d * 0x1_0000_0000 <= ahead < (d + 2) * 0x1_0000_0000);
    assert(Fixed::frac(1, 1000000000000).raw == 0);
    assert(int_of::<Fixed>(0).raw == 0);
    assert(int_of::<Fixed>(1).raw == 0x1_0000_0000);
    let t = share_along(s, p).raw as int;
    if l > 0 {
        let n = d * 0x1_0000_0000;
        let q = n / l;
        vstd::arithmetic::div_mod::lemma_fundamental_div_mod(n, l);
        vstd::arithmetic::div_mod::lemma_mod_bound(n, l);
        assert(dot / len2 == saturated(q));
        lemma_share_in_steps(square, ahead, l, d, q, n % l, t);
    } else {
        assert(t == 0);
        assert(square * 0 == 0);
    }
    t
}

proof fn lemma_share_in_steps(square: int, ahead: int, l: int, d: int, q: int, r: int, t: int)
    requires
        0 < l,
        l * 0x1_0000_0000 <= square < (l + 2) * 0x1_0000_0000,
        d * 0x1_0000_0000 <= ahead < (d + 2) * 0x1_0000_0000,
        d * 0x1_0000_0000 == l * q + r,
        0 <= r < l,
        t == if q < 0 {
            0
        } else if q > 0x1_0000_0000 {
            0x1_0000_0000
        } else {
            q
        },
    ensures
        t < 0x1_0000_0000 ==> ahead * 0x1_0000_0000 - square * t <= 0x2_0000_0000_0000_0000 + square,
        0 < t ==> ahead * 0x1_0000_0000 - square * t >= -0x2_0000_0000_0000_0000,
{
    let big = 0x1_0000_0000int;
    if t < 0x1_0000_0000 {
        // The quotient is at most the share, or one short of it.
        assert(l * q <= l * t) by (nonlinear_arith)
            requires
                q <= t,
                0 < l,
        ;
        assert(l * t * 0x1_0000_0000 <= square * t) by (nonlinear_arith)
            requires
                l * 0x1_0000_0000 <= square,
                0 <= t,
        ;
        assert(l * t * 0x1_0000_0000 == (l * t) * 0x1_0000_0000);
        assert(ahead * big <= (d * big + 2 * big) * big);
        assert(d * big <= l * t + l);
        assert(ahead * big - square * t <= l * big + 2 * big * big);
    }
    if 0 < t {
        assert(l * t <= l * q) by (nonlinear_arith)
            requires
                t <= q,
                0 < l,
        ;
        assert(square * t <= (l + 2) * 0x1_0000_0000 * t) by (nonlinear_arith)
            requires
                square <= (l + 2) * 0x1_0000_0000,
                0 <= t,
        ;
        assert((l + 2) * 0x1_0000_0000 * t == (l * t) * 0x1_0000_0000 + 2 * t * 0x1_0000_0000)
            by (nonlinear_arith);
        assert(l * t <= d * big);
        assert((l * t) * big <= (d * big) * big);
        assert(2 * t * big <= 2 * big * big);
    }
}

/// The nearest point of a piece of line lies on it, between its ends.
pub proof fn law_the_nearest_point_lies_on_the_piece(s: Segment<Fixed>, p: Vec2<Fixed>)
    requires
        at_home(s.a),
        at_home(s.b),
        at_home(p),
        close(s.b, s.a),
        close(p, s.a),
    ensures
        ({
            let at = nearest_on(s, p).at;
            let (vx, vy) = (s.b.x.raw - s.a.x.raw, s.b.y.raw - s.a.y.raw);
            let (ex, ey) = (at.x.raw - s.a.x.raw, at.y.raw - s.a.y.raw);
            &&& 0 <= vx ==> 0 <= ex <= vx
            &&& vx <= 0 ==> vx <= ex <= 0
            &&& 0 <= vy ==> 0 <= ey <= vy
            &&& vy <= 0 ==> vy <= ey <= 0
            &&& -(size(vx) + size(vy)) <= ex * vy - ey * vx <= size(vx) + size(vy)
        }),
{
    let t = lemma_share_along(s, p);
    let (vx, vy) = (s.b.x.raw - s.a.x.raw, s.b.y.raw - s.a.y.raw);
    let at = nearest_on(s, p).at;
    let (ex, ey) = (at.x.raw - s.a.x.raw, at.y.raw - s.a.y.raw);
    lemma_reached(s.a.x, s.b.x, share_along(s, p));
    lemma_reached(s.a.y, s.b.y, share_along(s, p));
    let (qx, qy) = (vx * t - ex * 0x1_0000_0000, vy * t - ey * 0x1_0000_0000);
    assert((ex * vy - ey * vx) * 0x1_0000_0000 == qy * vx - qx * vy) by (nonlinear_arith)
        requires
            qx == vx * t - ex * 0x1_0000_0000,
            qy == vy * t - ey * 0x1_0000_0000,
    ;
    lemma_part_of(qy, vx);
    lemma_part_of(qx, vy);
}

/// A part of a number.
proof fn lemma_part_of(q: int, v: int)
    requires
        0 <= q < 0x1_0000_0000,
    ensures
        -(size(v) * 0x1_0000_0000) <= q * v <= size(v) * 0x1_0000_0000,
{
    let s = size(v);
    assert(-(s * 0x1_0000_0000) <= q * v <= s * 0x1_0000_0000) by (nonlinear_arith)
        requires
            -s <= v <= s,
            0 <= q < 0x1_0000_0000,
    ;
}

/// How far along one axis a share of the way comes.
proof fn lemma_reached(a: Fixed, b: Fixed, t: Fixed)
    requires
        near_home(a),
        near_home(b),
        -0x2000_0000_0000 <= b.raw - a.raw <= 0x2000_0000_0000,
        0 <= t.raw <= 0x1_0000_0000,
    ensures
        ({
            let (v, e) = (b.raw - a.raw, (a + (b - a) * t).raw - a.raw);
            &&& 0 <= v * t.raw - e * 0x1_0000_0000 < 0x1_0000_0000
            &&& 0 <= v ==> 0 <= e <= v
            &&& v <= 0 ==> v <= e <= 0
            &&& t.raw == 0 ==> e == 0
            &&& t.raw == 0x1_0000_0000 ==> e == v
        }),
{
    let v = b.raw - a.raw;
    assert((b - a).raw == v);
    lemma_times(b - a, t);
    let p = v * t.raw;
    if 0 <= v {
        assert(0 <= p <= v * 0x1_0000_0000) by (nonlinear_arith)
            requires
                p == v * t.raw,
                0 <= v,
                0 <= t.raw <= 0x1_0000_0000,
        ;
    }
    if v <= 0 {
        assert(v * 0x1_0000_0000 <= p <= 0) by (nonlinear_arith)
            requires
                p == v * t.raw,
                v <= 0,
                0 <= t.raw <= 0x1_0000_0000,
        ;
    }
    if t.raw == 0 {
        assert(p == 0) by (nonlinear_arith)
            requires
                p == v * t.raw,
                t.raw == 0,
        ;
    }
    if t.raw == 0x1_0000_0000 {
        assert(p == v * 0x1_0000_0000) by (nonlinear_arith)
            requires
                p == v * t.raw,
                t.raw == 0x1_0000_0000,
        ;
    }
}

/// Whether a piece is long enough to have a direction: a forty thousandth of a yard.
pub open spec fn is_a_line(s: Segment<Fixed>) -> bool {
    let (vx, vy) = (s.b.x.raw - s.a.x.raw, s.b.y.raw - s.a.y.raw);
    0x2_0000_0000 <= vx * vx + vy * vy
}

/// The nearest point of a piece of line is nearest: seen from it, the point looked from lies square on
/// to the piece, but for what rounding takes; unless the nearest point is an end of the piece, and then
/// it lies square on or past that end. And its distance is how far off it is.
pub proof fn law_the_nearest_point_is_square_on(s: Segment<Fixed>, p: Vec2<Fixed>)
    requires
        at_home(s.a),
        at_home(s.b),
        at_home(p),
        close(s.b, s.a),
        close(p, s.a),
        is_a_line(s),
    ensures
        ({
            let n = nearest_on(s, p);
            let (vx, vy) = (s.b.x.raw - s.a.x.raw, s.b.y.raw - s.a.y.raw);
            let (rx, ry) = (p.x.raw - n.at.x.raw, p.y.raw - n.at.y.raw);
            let (along, square) = (rx * vx + ry * vy, vx * vx + vy * vy);
            let most = 0x2_0000_0000 + square / 0x1_0000_0000 + 1 + size(vx) + size(vy);
            &&& along <= most || n.at == s.b
            &&& -most <= along || n.at == s.a
            &&& n.d.raw * n.d.raw <= rx * rx + ry * ry
            &&& rx * rx + ry * ry < (n.d.raw + 1) * (n.d.raw + 1) + 0x2_0000_0000
            &&& 0 <= n.d.raw
        }),
{
    let t = lemma_share_along(s, p);
    let n = nearest_on(s, p);
    let (vx, vy) = (s.b.x.raw - s.a.x.raw, s.b.y.raw - s.a.y.raw);
    let (wx, wy) = (p.x.raw - s.a.x.raw, p.y.raw - s.a.y.raw);
    let (ex, ey) = (n.at.x.raw - s.a.x.raw, n.at.y.raw - s.a.y.raw);
    lemma_reached(s.a.x, s.b.x, share_along(s, p));
    lemma_reached(s.a.y, s.b.y, share_along(s, p));
    law_a_length_is_of_both_parts(p - n.at);
    let (qx, qy) = (vx * t - ex * 0x1_0000_0000, vy * t - ey * 0x1_0000_0000);
    let (rx, ry) = (p.x.raw - n.at.x.raw, p.y.raw - n.at.y.raw);
    let (along, square, ahead) = (rx * vx + ry * vy, vx * vx + vy * vy, wx * vx + wy * vy);
    lemma_residue(vx, vy, wx, wy, ex, ey, t, qx, qy);
    assert(along * 0x1_0000_0000 == ahead * 0x1_0000_0000 - square * t + (qx * vx + qy * vy));
    lemma_part_of(qx, vx);
    lemma_part_of(qy, vy);
}

proof fn lemma_residue(
    vx: int,
    vy: int,
    wx: int,
    wy: int,
    ex: int,
    ey: int,
    t: int,
    qx: int,
    qy: int,
)
    requires
        qx == vx * t - ex * 0x1_0000_0000,
        qy == vy * t - ey * 0x1_0000_0000,
    ensures
        ((wx - ex) * vx + (wy - ey) * vy) * 0x1_0000_0000 == (wx * vx + wy * vy) * 0x1_0000_0000 - (vx
            * vx + vy * vy) * t + (qx * vx + qy * vy),
{
    assert((wx - ex) * vx == wx * vx - ex * vx) by (nonlinear_arith);
    assert((wy - ey) * vy == wy * vy - ey * vy) by (nonlinear_arith);
    assert((ex * vx) * 0x1_0000_0000 == (vx * vx) * t - qx * vx) by (nonlinear_arith)
        requires
            qx == vx * t - ex * 0x1_0000_0000,
    ;
    assert((ey * vy) * 0x1_0000_0000 == (vy * vy) * t - qy * vy) by (nonlinear_arith)
        requires
            qy == vy * t - ey * 0x1_0000_0000,
    ;
    assert((vx * vx + vy * vy) * t == (vx * vx) * t + (vy * vy) * t) by (nonlinear_arith);
}

/// Whether a point is where the line crosses a side of a square, given the field at its corners: the
/// first and the second side run from the first corner, and the others from the one across from it.
pub open spec fn on_a_side<S: Scalar>(
    q: Vec2<S>,
    first: Sample<S>,
    across: Sample<S>,
    beyond: Sample<S>,
    along: Sample<S>,
) -> bool {
    ||| first.positive() != across.positive() && q == crossing(first, across)
    ||| across.positive() != beyond.positive() && q == crossing(across, beyond)
    ||| beyond.positive() != along.positive() && q == crossing(beyond, along)
    ||| along.positive() != first.positive() && q == crossing(along, first)
}

/// The ends of a piece inside a square are on the square's sides.
proof fn lemma_ends_on_sides<S: Scalar>(
    a: Sample<S>,
    b: Sample<S>,
    c: Sample<S>,
    d: Sample<S>,
    k: int,
)
    requires
        0 <= k < contour(a, b, c, d).len(),
    ensures
        on_a_side(contour(a, b, c, d)[k].a, a, b, c, d),
        on_a_side(contour(a, b, c, d)[k].b, a, b, c, d),
{
    let x = crossings(a, b, c, d);
    assert forall|n: int| 0 <= n < x.len() implies on_a_side(#[trigger] x[n], a, b, c, d) by {
        let (e1, e2, e3) = (edge_crossing(a, b), edge_crossing(b, c), edge_crossing(c, d));
        if n < e1.len() {
            assert(x[n] == e1[n]);
        } else if n < e1.len() + e2.len() {
            assert(x[n] == e2[n - e1.len()]);
        } else if n < e1.len() + e2.len() + e3.len() {
            assert(x[n] == e3[n - e1.len() - e2.len()]);
        } else {
            assert(x[n] == edge_crossing(d, a)[n - e1.len() - e2.len() - e3.len()]);
        }
    }
}

/// The depth of the water at a sample, over the ground surveyed there.
pub open spec fn depth_at<S: Scalar>(
    mesh: LiquidMesh<S>,
    ground: Seq<Seq<Option<S>>>,
    si: int,
    sj: int,
) -> Sample<S> {
    depth_sample(sample_point(mesh, si, sj), ground[sj][si]->Some_0)
}

/// Whether all four corners of a square of samples have ground.
pub open spec fn has_ground<S: Scalar>(ground: Seq<Seq<Option<S>>>, si: int, sj: int) -> bool {
    &&& ground[sj][si] is Some
    &&& ground[sj][si + 1] is Some
    &&& ground[sj + 1][si] is Some
    &&& ground[sj + 1][si + 1] is Some
}

/// The waterline in a square of samples runs from side to side, where the depth passes nothing between
/// two neighbouring samples, each over the ground under it; it runs exactly where the corners disagree,
/// and nowhere in a square that lacks ground.
pub proof fn law_a_waterline_runs_from_side_to_side<S: Scalar>(
    mesh: LiquidMesh<S>,
    ground: Seq<Seq<Option<S>>>,
    si: int,
    sj: int,
)
    ensures
        ({
            let line = square_line(mesh, ground, si, sj);
            let (a, b, c, d) = (
                depth_at(mesh, ground, si, sj),
                depth_at(mesh, ground, si + 1, sj),
                depth_at(mesh, ground, si + 1, sj + 1),
                depth_at(mesh, ground, si, sj + 1),
            );
            &&& !has_ground(ground, si, sj) ==> line.len() == 0
            &&& has_ground(ground, si, sj) ==> (line.len() == 0 <==> a.positive() == b.positive()
                && b.positive() == c.positive() && c.positive() == d.positive())
            &&& forall|k: int|
                0 <= k < line.len() ==> on_a_side((#[trigger] line[k]).a, a, b, c, d) && on_a_side(
                    line[k].b,
                    a,
                    b,
                    c,
                    d,
                )
        }),
{
    let line = square_line(mesh, ground, si, sj);
    let (a, b, c, d) = (
        depth_at(mesh, ground, si, sj),
        depth_at(mesh, ground, si + 1, sj),
        depth_at(mesh, ground, si + 1, sj + 1),
        depth_at(mesh, ground, si, sj + 1),
    );
    if has_ground(ground, si, sj) {
        assert(line == contour(a, b, c, d));
        law_a_line_parts_the_signs(a, b, c, d);
        assert forall|k: int| 0 <= k < line.len() implies on_a_side(
            (#[trigger] line[k]).a,
            a,
            b,
            c,
            d,
        ) && on_a_side(line[k].b, a, b, c, d) by {
            lemma_ends_on_sides(a, b, c, d, k);
        }
    }
}

/// Whether a piece is one of those in some square of the first `n` of a row.
spec fn in_a_row<S: Scalar>(
    mesh: LiquidMesh<S>,
    ground: Seq<Seq<Option<S>>>,
    sj: int,
    n: int,
    s: Segment<S>,
) -> bool {
    exists|si: int| 0 <= si < n && #[trigger] square_line(mesh, ground, si, sj).contains(s)
}

proof fn lemma_row_pieces<S: Scalar>(
    mesh: LiquidMesh<S>,
    ground: Seq<Seq<Option<S>>>,
    sj: int,
    n: int,
    s: Segment<S>,
)
    ensures
        row_line(mesh, ground, sj, n).contains(s) <==> in_a_row(mesh, ground, sj, n, s),
    decreases n,
{
    if n > 0 {
        lemma_row_pieces(mesh, ground, sj, n - 1, s);
        lemma_either_contains(
            row_line(mesh, ground, sj, n - 1),
            square_line(mesh, ground, n - 1, sj),
            s,
        );
    }
}

proof fn lemma_either_contains<T>(a: Seq<T>, b: Seq<T>, s: T)
    ensures
        (a + b).contains(s) <==> a.contains(s) || b.contains(s),
{
    if a.contains(s) {
        let i = choose|i: int| 0 <= i < a.len() && a[i] == s;
        assert((a + b)[i] == s);
    }
    if b.contains(s) {
        let i = choose|i: int| 0 <= i < b.len() && b[i] == s;
        assert((a + b)[a.len() + i] == s);
    }
}

/// Whether a piece is one of those in some square of the first `n` rows.
pub open spec fn in_a_square<S: Scalar>(
    mesh: LiquidMesh<S>,
    ground: Seq<Seq<Option<S>>>,
    rows: int,
    s: Segment<S>,
) -> bool {
    exists|si: int, sj: int|
        0 <= si < 4 * (mesh.grid@[0] - 1) && 0 <= sj < rows && #[trigger] square_line(
            mesh,
            ground,
            si,
            sj,
        ).contains(s)
}

proof fn lemma_rows_pieces<S: Scalar>(
    mesh: LiquidMesh<S>,
    ground: Seq<Seq<Option<S>>>,
    n: int,
    s: Segment<S>,
)
    ensures
        rows_line(mesh, ground, n).contains(s) <==> in_a_square(mesh, ground, n, s),
    decreases n,
{
    if n > 0 {
        let w = samples(mesh.cols()) - 1;
        assert(w == 4 * (mesh.grid@[0] - 1));
        lemma_rows_pieces(mesh, ground, n - 1, s);
        lemma_row_pieces(mesh, ground, n - 1, w, s);
        lemma_either_contains(
            rows_line(mesh, ground, n - 1),
            row_line(mesh, ground, n - 1, w),
            s,
        );
        if in_a_square(mesh, ground, n, s) {
            let (si, sj) = choose|si: int, sj: int|
                0 <= si < 4 * (mesh.grid@[0] - 1) && 0 <= sj < n && #[trigger] square_line(
                    mesh,
                    ground,
                    si,
                    sj,
                ).contains(s);
            if sj == n - 1 {
                assert(square_line(mesh, ground, si, n - 1).contains(s));
                assert(in_a_row(mesh, ground, n - 1, w, s));
            } else {
                assert(square_line(mesh, ground, si, sj).contains(s));
                assert(in_a_square(mesh, ground, n - 1, s));
            }
        }
        if in_a_row(mesh, ground, n - 1, w, s) {
            let si = choose|si: int|
                0 <= si < w && #[trigger] square_line(mesh, ground, si, n - 1).contains(s);
            assert(square_line(mesh, ground, si, n - 1).contains(s));
        }
        if in_a_square(mesh, ground, n - 1, s) {
            let (si, sj) = choose|si: int, sj: int|
                0 <= si < 4 * (mesh.grid@[0] - 1) && 0 <= sj < n - 1 && #[trigger] square_line(
                    mesh,
                    ground,
                    si,
                    sj,
                ).contains(s);
            assert(square_line(mesh, ground, si, sj).contains(s));
        }
    }
}

/// A surface's waterline is that of all its squares of samples, four to a cell's side, and nothing else.
pub proof fn law_a_waterline_is_that_of_all_its_squares<S: Scalar>(
    mesh: LiquidMesh<S>,
    ground: Seq<Seq<Option<S>>>,
    s: Segment<S>,
)
    ensures
        waterline(mesh, ground).contains(s) <==> in_a_square(
            mesh,
            ground,
            4 * (mesh.grid@[1] - 1),
            s,
        ),
{
    assert(samples(mesh.rows()) - 1 == 4 * (mesh.grid@[1] - 1));
    lemma_rows_pieces(mesh, ground, samples(mesh.rows()) - 1, s);
}

/// The water's edge in a lattice cell runs from side to side of it, where the wet share passes a half
/// between two neighbouring corners.
pub proof fn law_an_edge_runs_from_side_to_side<S: Scalar>(
    cells: Cells,
    pitch: S,
    c: (int, int),
    k: int,
)
    requires
        0 <= k < cell_edge(cells, pitch, c).len(),
    ensures
        ({
            let s = cell_edge(cells, pitch, c)[k];
            let (first, across, beyond, along) = (
                corner_sample(cells, pitch, c.0, c.1),
                corner_sample(cells, pitch, c.0 + 1, c.1),
                corner_sample(cells, pitch, c.0 + 1, c.1 + 1),
                corner_sample(cells, pitch, c.0, c.1 + 1),
            );
            on_a_side(s.a, first, across, beyond, along) && on_a_side(
                s.b,
                first,
                across,
                beyond,
                along,
            )
        }),
{
    lemma_ends_on_sides(
        corner_sample(cells, pitch, c.0, c.1),
        corner_sample(cells, pitch, c.0 + 1, c.1),
        corner_sample(cells, pitch, c.0 + 1, c.1 + 1),
        corner_sample(cells, pitch, c.0, c.1 + 1),
        k,
    );
}

/// Whether a piece is of the edge of some cell among the first `n` met.
pub open spec fn edges_a_cell<S: Scalar>(cells: Cells, pitch: S, n: int, s: Segment<S>) -> bool {
    exists|k: int| 0 <= k < n && cell_edge(cells, pitch, #[trigger] cells.order[k]).contains(s)
}

/// The water's edge is that of every cell covered, and nothing else.
pub proof fn law_the_edge_is_that_of_all_its_cells<S: Scalar>(
    cells: Cells,
    pitch: S,
    n: int,
    s: Segment<S>,
)
    requires
        0 <= n <= cells.order.len(),
    ensures
        cells_edge(cells, pitch, n).contains(s) <==> edges_a_cell(cells, pitch, n, s),
    decreases n,
{
    if n > 0 {
        law_the_edge_is_that_of_all_its_cells(cells, pitch, n - 1, s);
        let last = cells.order[n - 1];
        lemma_either_contains(cells_edge(cells, pitch, n - 1), cell_edge(cells, pitch, last), s);
        if edges_a_cell(cells, pitch, n - 1, s) {
            let k = choose|k: int|
                0 <= k < n - 1 && cell_edge(cells, pitch, #[trigger] cells.order[k]).contains(s);
            assert(cell_edge(cells, pitch, cells.order[k]).contains(s));
        }
    }
}

/// The ground under a sample is what the surface's own chunk of the terrain says, where it has an
/// answer, and what the whole terrain says otherwise. A surface's own chunk is the first that has ground
/// under its middle.
pub proof fn law_the_ground_is_the_own_chunks_first<
    S: Scalar,
    H: Fn(usize, Vec3<S>) -> Option<S>,
    T: Fn(Vec3<S>) -> Option<S>,
>(
    chunk_height: H,
    terrain: T,
    chunks: int,
    middle: Vec3<S>,
    own: Option<usize>,
    p: Vec3<S>,
    g: Option<S>,
)
    requires
        first_under(chunk_height, chunks, middle, own),
        grounded(chunk_height, terrain, own, p, g),
    ensures
        own is None ==> call_ensures(terrain, (p,), g),
        own matches Some(c) ==> {
            &&& c < chunks
            &&& !call_ensures(chunk_height, (c, p), None) ==> g is Some && call_ensures(
                chunk_height,
                (c, p),
                g,
            )
            &&& g is None ==> call_ensures(terrain, (p,), g)
            &&& !call_ensures(terrain, (p,), g) ==> call_ensures(chunk_height, (c, p), g)
            &&& forall|i: usize| i < c ==> #[trigger] call_ensures(chunk_height, (i, middle), None)
            &&& exists|h: S| #[trigger] call_ensures(chunk_height, (c, middle), Some(h))
        },
        forall|i: usize|
            i < chunks && !(#[trigger] call_ensures(chunk_height, (i, middle), None)) ==> own is Some
                && own->Some_0 <= i,
{
}

} // verus!
