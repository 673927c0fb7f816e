//! How much of the screen a body of water covers, in whole steps of the exact numbers: as much as its
//! ground, shrunk by the square of how far ahead it is.

use vstd::prelude::*;

use crate::fixed::{saturated, Fixed};
use crate::frame::{fade, frame_slop, Frame};
use crate::geometry::Vec3;
use crate::plane::{screen_share, Sounding};
use crate::scalar::{clamped, int_of, Scalar};

verus! {

/// Where a surface's wet point is in the scene, in whose axes the second is up; the world's first axis
/// runs against the scene's third, and its second against the scene's first.
pub open spec fn wet_point(s: Sounding<Fixed>) -> Vec3<Fixed> {
    Vec3 {
        x: saturated(-s.wet.at.y.raw),
        y: s.wet.z,
        z: saturated(-s.wet.at.x.raw),
    }
}

/// The product of two directions, in steps squared.
pub open spec fn steps_along(a: Vec3<Fixed>, b: Vec3<Fixed>) -> int {
    a.x.raw * b.x.raw + a.y.raw * b.y.raw + a.z.raw * b.z.raw
}

/// Whether no coordinate is beyond four million yards.
pub open spec fn near_enough(v: Vec3<Fixed>) -> bool {
    &&& -0x40_0000_0000_0000 <= v.x.raw <= 0x40_0000_0000_0000
    &&& -0x40_0000_0000_0000 <= v.y.raw <= 0x40_0000_0000_0000
    &&& -0x40_0000_0000_0000 <= v.z.raw <= 0x40_0000_0000_0000
}

/// Whether no part of a direction is longer than two.
pub open spec fn short(v: Vec3<Fixed>) -> bool {
    &&& -0x2_0000_0000 <= v.x.raw <= 0x2_0000_0000
    &&& -0x2_0000_0000 <= v.y.raw <= 0x2_0000_0000
    &&& -0x2_0000_0000 <= v.z.raw <= 0x2_0000_0000
}

/// The product of a distance and a direction is what it is in whole steps, less what rounding down
/// takes: three at most.
pub proof fn lemma_along(a: Vec3<Fixed>, b: Vec3<Fixed>)
    requires
        near_enough(a),
        short(b),
    ensures
        a.along(b).raw * 0x1_0000_0000 <= steps_along(a, b) < (a.along(b).raw + 3) * 0x1_0000_0000,
        -0x1000_0000_0000_0000 <= a.along(b).raw <= 0x1000_0000_0000_0000,
{
    lemma_one_product(a.x, b.x);
    lemma_one_product(a.y, b.y);
    lemma_one_product(a.z, b.z);
}

proof fn lemma_one_product(a: Fixed, b: Fixed)
    requires
        -0x40_0000_0000_0000 <= a.raw <= 0x40_0000_0000_0000,
        -0x2_0000_0000 <= b.raw <= 0x2_0000_0000,
    ensures
        (a * b).raw * 0x1_0000_0000 <= a.raw * b.raw < ((a * b).raw + 1) * 0x1_0000_0000,
        -0x80_0000_0000_0000 <= (a * b).raw <= 0x80_0000_0000_0000,
{
    let p = a.raw * b.raw;
    assert(-0x80_0000_0000_0000_0000_0000 <= p <= 0x80_0000_0000_0000_0000_0000) by (nonlinear_arith)
        requires
            p == a.raw * b.raw,
            -0x40_0000_0000_0000 <= a.raw <= 0x40_0000_0000_0000,
            -0x2_0000_0000 <= b.raw <= 0x2_0000_0000,
    ;
    assert(a * b == saturated(p / 0x1_0000_0000));
}

/// The depth of a point in view is how far it is ahead of the eye along the view, and a point is in
/// view only ahead.
pub proof fn law_depth_is_how_far_ahead(frame: Frame<Fixed>, eye: Vec3<Fixed>, point: Vec3<Fixed>)
    requires
        near_enough(point - eye),
        short(frame.forward),
    ensures
        frame.sees(eye, point) matches Some(v) ==> {
            let ahead = steps_along(point - eye, frame.forward);
            &&& v.depth.raw * 0x1_0000_0000 <= ahead < (v.depth.raw + 3) * 0x1_0000_0000
            &&& 0 < v.depth.raw
        },
{
    lemma_along(point - eye, frame.forward);
    assert(int_of::<Fixed>(0).raw == 0);
}

/// The share of the screen a surface covers is its ground, weighed by how far inside the frame it is,
/// over the square of its depth, but for what rounding down takes. With `w` the weight, `a` the ground,
/// `d` the depth and `n` the share, all in steps, `n * d * d` is `w * a` whole steps.
pub proof fn law_the_share_is_ground_over_depth_squared(
    s: Sounding<Fixed>,
    eye: Vec3<Fixed>,
    frame: Frame<Fixed>,
    reach: Fixed,
)
    requires
        0 <= s.area.raw <= 0x4000_0000_0000_0000,
        frame.sees(eye, wet_point(s)) matches Some(v) ==> 0 <= v.weight.raw <= 0x1_0000_0000
            && 0x1_0000 <= v.depth.raw <= 0x8000_0000_0000,
    ensures
        screen_share(s, eye, frame, reach) matches Some(score) ==> ({
            let v = frame.sees(eye, wet_point(s))->Some_0;
            let (w, a, d, n) = (
                v.weight.raw as int,
                s.area.raw as int,
                v.depth.raw as int,
                score.raw as int,
            );
            &&& frame.sees(eye, wet_point(s)) is Some
            &&& 0 <= n
            &&& n * (d * d - 0x1_0000_0000) <= (w * a) * 0x1_0000_0000
            &&& n < i64::MAX ==> (w * a - 0x1_0000_0000) * 0x1_0000_0000 < (n + 1) * (d * d)
        }),
{
    if let Some(score) = screen_share(s, eye, frame, reach) {
        let v = frame.sees(eye, wet_point(s))->Some_0;
        lemma_share(v.weight, s.area, v.depth);
    }
}

proof fn lemma_share(weight: Fixed, area: Fixed, depth: Fixed)
    requires
        0 <= weight.raw <= 0x1_0000_0000,
        0 <= area.raw <= 0x4000_0000_0000_0000,
        0x1_0000 <= depth.raw <= 0x8000_0000_0000,
    ensures
        ({
            let score = weight * area / (depth * depth);
            let (w, a, d, n) = (
                weight.raw as int,
                area.raw as int,
                depth.raw as int,
                score.raw as int,
            );
            &&& 0 <= n
            &&& n * (d * d - 0x1_0000_0000) <= (w * a) * 0x1_0000_0000
            &&& n < i64::MAX ==> (w * a - 0x1_0000_0000) * 0x1_0000_0000 < (n + 1) * (d * d)
        }),
{
    let (w, a, d) = (weight.raw as int, area.raw as int, depth.raw as int);
    let (p, q) = (w * a, d * d);
    assert(0 <= p <= 0x1_0000_0000 * 0x4000_0000_0000_0000) by (nonlinear_arith)
        requires
            p == w * a,
            0 <= w <= 0x1_0000_0000,
            0 <= a <= 0x4000_0000_0000_0000,
    ;
    assert(0x1_0000_0000 <= q <= 0x4000_0000_0000_0000_0000_0000) by (nonlinear_arith)
        requires
            q == d * d,
            0x1_0000 <= d <= 0x8000_0000_0000,
    ;
    let (m, k) = (weight * area, depth * depth);
    assert(m.raw == p / 0x1_0000_0000);
    assert(k.raw == q / 0x1_0000_0000);
    let (mm, kk) = (m.raw as int, k.raw as int);
    assert(0 < kk);
    let t = (mm * 0x1_0000_0000) / kk;
    vstd::arithmetic::div_mod::lemma_fundamental_div_mod(mm * 0x1_0000_0000, kk);
    vstd::arithmetic::div_mod::lemma_mod_bound(mm * 0x1_0000_0000, kk);
    vstd::arithmetic::div_mod::lemma_div_pos_is_pos(mm * 0x1_0000_0000, kk);
    assert((t + 1) * kk == t * kk + kk) by (nonlinear_arith);
    assert(kk * t == t * kk) by (nonlinear_arith);
    let score = m / k;
    let n = score.raw as int;
    assert(score == saturated(t));
    assert(0 <= n <= t);
    assert(n * kk <= t * kk) by (nonlinear_arith)
        requires
            0 <= n <= t,
            0 < kk,
    ;
    lemma_scaled(n, kk, q - 0x1_0000_0000);
    if n < i64::MAX {
        assert(n == t);
        lemma_scaled_up(n + 1, kk, q);
    }
}

proof fn lemma_scaled(n: int, k: int, q: int)
    requires
        0 <= n,
        q <= k * 0x1_0000_0000,
    ensures
        n * q <= (n * k) * 0x1_0000_0000,
{
    assert(n * q <= n * (k * 0x1_0000_0000)) by (nonlinear_arith)
        requires
            0 <= n,
            q <= k * 0x1_0000_0000,
    ;
    assert(n * (k * 0x1_0000_0000) == (n * k) * 0x1_0000_0000) by (nonlinear_arith);
}

proof fn lemma_scaled_up(n: int, k: int, q: int)
    requires
        0 <= n,
        k * 0x1_0000_0000 <= q,
    ensures
        (n * k) * 0x1_0000_0000 <= n * q,
{
    assert(n * (k * 0x1_0000_0000) <= n * q) by (nonlinear_arith)
        requires
            0 <= n,
            k * 0x1_0000_0000 <= q,
    ;
    assert(n * (k * 0x1_0000_0000) == (n * k) * 0x1_0000_0000) by (nonlinear_arith);
}

/// A surface counts exactly where it is below the eye, in frame, and no deeper than the reach.
pub proof fn law_only_water_below_in_frame_and_within_reach_counts(
    s: Sounding<Fixed>,
    eye: Vec3<Fixed>,
    frame: Frame<Fixed>,
    reach: Fixed,
)
    ensures
        screen_share(s, eye, frame, reach) is Some <==> s.wet.z.raw < eye.y.raw && (frame.sees(
            eye,
            wet_point(s),
        ) matches Some(v) && v.depth.raw <= reach.raw),
{
}

/// What a quotient of two fourfold numbers is.
proof fn lemma_fourfold(x: int, y: int)
    requires
        0 <= x,
        0 < y,
    ensures
        (4 * x) / (4 * y) == x / y,
        4 * (x / (4 * y)) <= x / y < 4 * (x / (4 * y)) + 4,
{
    let (q, r) = (x / y, x % y);
    vstd::arithmetic::div_mod::lemma_fundamental_div_mod(x, y);
    vstd::arithmetic::div_mod::lemma_mod_bound(x, y);
    assert(4 * x == q * (4 * y) + 4 * r) by (nonlinear_arith)
        requires
            x == y * q + r,
    ;
    vstd::arithmetic::div_mod::lemma_fundamental_div_mod_converse(4 * x, 4 * y, q, 4 * r);
    let (a, b) = (q / 4, q % 4);
    assert(x == a * (4 * y) + (b * y + r)) by (nonlinear_arith)
        requires
            x == y * q + r,
            q == 4 * a + b,
    ;
    assert(0 <= b * y + r < 4 * y) by (nonlinear_arith)
        requires
            0 <= b <= 3,
            0 <= r < y,
    ;
    vstd::arithmetic::div_mod::lemma_fundamental_div_mod_converse(x, 4 * y, a, b * y + r);
}

/// How much screen a surface covers falls with the square of its depth: of two surfaces wholly in
/// frame, one at twice the depth of the other with four times its ground covers as much, and with
/// the same ground a quarter.
pub proof fn law_twice_as_far_covers_a_quarter(
    s: Sounding<Fixed>,
    t: Sounding<Fixed>,
    eye: Vec3<Fixed>,
    frame: Frame<Fixed>,
    reach: Fixed,
)
    requires
        frame.sees(eye, wet_point(s)) matches Some(v) && v.weight.raw == 0x1_0000_0000 && v.depth.raw
            % 0x1_0000 == 0 && v.depth.raw <= 0x4000_0000_0000,
        frame.sees(eye, wet_point(t)) matches Some(u) && u.weight.raw == 0x1_0000_0000 && u.depth.raw
            == 2 * frame.sees(eye, wet_point(s))->Some_0.depth.raw && u.depth.raw <= reach.raw,
        s.wet.z.raw < eye.y.raw,
        t.wet.z.raw < eye.y.raw,
        0 <= s.area.raw <= 0x1000_0000_0000_0000,
        0 < frame.sees(eye, wet_point(s))->Some_0.depth.raw,
    ensures
        ({
            let m = screen_share(s, eye, frame, reach);
            let n = screen_share(t, eye, frame, reach);
            &&& m is Some
            &&& n is Some
            &&& t.area.raw == 4 * s.area.raw ==> n == m
            &&& t.area.raw == s.area.raw && m->Some_0.raw < i64::MAX ==> 4 * n->Some_0.raw
                <= m->Some_0.raw < 4 * n->Some_0.raw + 4
        }),
{
    let (v, u) = (
        frame.sees(eye, wet_point(s))->Some_0,
        frame.sees(eye, wet_point(t))->Some_0,
    );
    let d = v.depth.raw as int;
    let e = d / 0x1_0000;
    assert(d == 0x1_0000 * e);
    assert(d * d == 0x1_0000_0000 * (e * e)) by (nonlinear_arith)
        requires
            d == 0x1_0000 * e,
    ;
    assert((2 * d) * (2 * d) == 4 * (d * d)) by (nonlinear_arith);
    let k = e * e;
    assert(0 < k <= 0x1000_0000_0000_0000) by (nonlinear_arith)
        requires
            k == e * e,
            0 < e <= 0x4000_0000,
    ;
    assert((v.depth * v.depth).raw == k);
    assert((u.depth * u.depth).raw == 4 * k);
    assert((0x1_0000_0000 * s.area.raw) / 0x1_0000_0000 == s.area.raw);
    assert(v.weight * s.area == s.area);
    let x = s.area.raw * 0x1_0000_0000;
    lemma_fourfold(x, k);
    if t.area.raw == 4 * s.area.raw {
        assert((0x1_0000_0000 * t.area.raw) / 0x1_0000_0000 == t.area.raw);
        assert(u.weight * t.area == t.area);
    }
    if t.area.raw == s.area.raw {
        assert(u.weight * t.area == s.area);
    }
}

/// A share of the frame no larger than its half extent counts in full.
proof fn lemma_counts_in_full(offset: Fixed, half: Fixed)
    requires
        0x1_0000 <= half.raw <= 0x1000_0000_0000,
        -0x1000_0000_0000_0000 <= offset.raw <= half.raw,
    ensures
        fade(offset, half).raw == 0x1_0000_0000,
{
    let slop = frame_slop::<Fixed>();
    assert(slop.raw == 5798205849);
    let p = half.raw * slop.raw;
    assert(p == 5798205849 * half.raw) by (nonlinear_arith)
        requires
            p == half.raw * slop.raw,
            slop.raw == 5798205849,
    ;
    let outer = half * slop;
    assert(outer.raw == p / 0x1_0000_0000);
    let edge = outer - half;
    assert(edge.raw > 0);
    let over = offset - half;
    assert(over.raw <= 0);
    let q = over / edge;
    let (x, y) = (over.raw * 0x1_0000_0000, edge.raw as int);
    assert(x / y <= 0) by (nonlinear_arith)
        requires
            x <= 0,
            0 < y,
    ;
    assert(q == saturated(x / y));
    assert(int_of::<Fixed>(0).raw == 0);
    assert(int_of::<Fixed>(1).raw == 0x1_0000_0000);
    assert(clamped(q, int_of::<Fixed>(0), int_of::<Fixed>(1)).raw == 0);
}

/// A share of the frame past the slop counts for nothing.
proof fn lemma_counts_for_nothing(offset: Fixed, half: Fixed)
    requires
        0x1_0000 <= half.raw <= 0x1000_0000_0000,
        20 * offset.raw >= 27 * half.raw,
        offset.raw <= 0x4000_0000_0000_0000,
    ensures
        fade(offset, half).raw == 0,
{
    let slop = frame_slop::<Fixed>();
    assert(slop.raw == 5798205849);
    let p = half.raw * slop.raw;
    assert(p == 5798205849 * half.raw) by (nonlinear_arith)
        requires
            p == half.raw * slop.raw,
            slop.raw == 5798205849,
    ;
    let outer = half * slop;
    assert(outer.raw == p / 0x1_0000_0000);
    let edge = outer - half;
    assert(edge.raw > 0);
    let over = offset - half;
    assert(over.raw >= edge.raw);
    let q = over / edge;
    let (x, y) = (over.raw * 0x1_0000_0000, edge.raw as int);
    vstd::arithmetic::div_mod::lemma_div_is_ordered(y * 0x1_0000_0000, x, y);
    vstd::arithmetic::div_mod::lemma_div_multiples_vanish(0x1_0000_0000, y);
    assert(x / y >= 0x1_0000_0000);
    assert(q == saturated(x / y));
    assert(int_of::<Fixed>(0).raw == 0);
    assert(int_of::<Fixed>(1).raw == 0x1_0000_0000);
    assert(clamped(q, int_of::<Fixed>(0), int_of::<Fixed>(1)).raw == 0x1_0000_0000);
}

/// How far aside a point is, for how far ahead it is.
proof fn lemma_aside(n: Fixed, depth: Fixed)
    requires
        0 < depth.raw <= 0x1000_0000_0000_0000,
        -0x1000_0000_0000_0000 <= n.raw <= 0x1000_0000_0000_0000,
    ensures
        forall|t: int|
            0 <= t <= 0x1000_0000_0000_0000 && #[trigger] (t * depth.raw) >= n.raw * 0x1_0000_0000
                && t * depth.raw >= -n.raw * 0x1_0000_0000 ==> (n / depth).magnitude().raw <= t,
        forall|t: int|
            0 <= t <= 0x1000_0000_0000_0000 && (#[trigger] (t * depth.raw) <= n.raw * 0x1_0000_0000
                || t * depth.raw <= -n.raw * 0x1_0000_0000) ==> t <= (n / depth).magnitude().raw,
        0 <= (n / depth).magnitude().raw,
{
    let (x, d) = (n.raw * 0x1_0000_0000, depth.raw as int);
    let q = x / d;
    vstd::arithmetic::div_mod::lemma_fundamental_div_mod(x, d);
    vstd::arithmetic::div_mod::lemma_mod_bound(x, d);
    assert(n / depth == saturated(q));
    assert forall|t: int|
        0 <= t <= 0x1000_0000_0000_0000 && #[trigger] (t * d) >= x && t * d >= -x implies (n
        / depth).magnitude().raw <= t by {
        if q > t {
            assert(d * q >= d * (t + 1)) by (nonlinear_arith)
                requires
                    q >= t + 1,
                    0 < d,
            ;
            assert(d * (t + 1) == t * d + d) by (nonlinear_arith);
        }
        if q < -t {
            assert(d * q <= d * (-t - 1)) by (nonlinear_arith)
                requires
                    q <= -t - 1,
                    0 < d,
            ;
            assert(d * (-t - 1) == -(t * d) - d) by (nonlinear_arith);
        }
    }
    assert forall|t: int|
        0 <= t <= 0x1000_0000_0000_0000 && (#[trigger] (t * d) <= x || t * d <= -x) implies t <= (n
        / depth).magnitude().raw by {
        if t * d <= x && q < t {
            assert(d * q <= d * (t - 1)) by (nonlinear_arith)
                requires
                    q <= t - 1,
                    0 < d,
            ;
            assert(d * (t - 1) == t * d - d) by (nonlinear_arith);
        }
        if t * d <= -x && q > -t {
            assert(d * q >= d * (-t + 1)) by (nonlinear_arith)
                requires
                    q >= -t + 1,
                    0 < d,
            ;
            assert(d * (-t + 1) == -(t * d) + d) by (nonlinear_arith);
        }
    }
}

/// Whether a frame's tangents are ones a camera has, and its axes no longer than two.
pub open spec fn framed(frame: Frame<Fixed>) -> bool {
    &&& short(frame.forward)
    &&& short(frame.up)
    &&& short(frame.right)
    &&& 0x1_0000 <= frame.tan_v.raw <= 0x1000_0000_0000
    &&& 0x1_0000 <= frame.tan_h.raw <= 0x1000_0000_0000
}

/// What is inside the frame counts in full: a point ahead, no further up or down than its depth times
/// the one tangent and no further aside than its depth times the other.
pub proof fn law_inside_the_frame_counts_in_full(
    frame: Frame<Fixed>,
    eye: Vec3<Fixed>,
    point: Vec3<Fixed>,
)
    requires
        framed(frame),
        near_enough(point - eye),
        ({
            let v = point - eye;
            let (d, u, r) = (v.along(frame.forward).raw, v.along(frame.up).raw, v.along(
                frame.right,
            ).raw);
            &&& 0 < d
            &&& frame.tan_v.raw * d >= u * 0x1_0000_0000
            &&& frame.tan_v.raw * d >= -u * 0x1_0000_0000
            &&& frame.tan_h.raw * d >= r * 0x1_0000_0000
            &&& frame.tan_h.raw * d >= -r * 0x1_0000_0000
        }),
    ensures
        frame.sees(eye, point) matches Some(v) && v.weight.raw == 0x1_0000_0000,
{
    let v = point - eye;
    lemma_along(v, frame.forward);
    lemma_along(v, frame.up);
    lemma_along(v, frame.right);
    let d = v.along(frame.forward);
    lemma_aside(v.along(frame.up), d);
    lemma_aside(v.along(frame.right), d);
    let (a, b) = (
        (v.along(frame.up) / d).magnitude(),
        (v.along(frame.right) / d).magnitude(),
    );
    assert(a.raw <= frame.tan_v.raw) by {
        assert(frame.tan_v.raw * d.raw >= v.along(frame.up).raw * 0x1_0000_0000);
    }
    assert(b.raw <= frame.tan_h.raw) by {
        assert(frame.tan_h.raw * d.raw >= v.along(frame.right).raw * 0x1_0000_0000);
    }
    lemma_counts_in_full(a, frame.tan_v);
    lemma_counts_in_full(b, frame.tan_h);
    assert(int_of::<Fixed>(0).raw == 0);
    let one = fade(a, frame.tan_v);
    assert(one.raw * one.raw == 0x1_0000_0000_0000_0000) by (nonlinear_arith)
        requires
            one.raw == 0x1_0000_0000,
    ;
}

/// A point well past one side of a frame counts for nothing there.
proof fn lemma_past_the_slop(n: Fixed, depth: Fixed, half: Fixed)
    requires
        0 < depth.raw <= 0x1000_0000_0000_0000,
        -0x1000_0000_0000_0000 <= n.raw <= 0x1000_0000_0000_0000,
        0x1_0000 <= half.raw <= 0x1000_0000_0000,
        ({
            let least = 27 * (half.raw * depth.raw) + 20 * depth.raw;
            least <= 20 * (n.raw * 0x1_0000_0000) || least <= 20 * (-n.raw * 0x1_0000_0000)
        }),
        (n / depth).magnitude().raw <= 0x4000_0000_0000_0000,
    ensures
        fade((n / depth).magnitude(), half).raw == 0,
{
    let (d, h) = (depth.raw as int, half.raw as int);
    let t = (27 * h + 19) / 20;
    assert(20 * (t * d) <= 27 * (h * d) + 20 * d) by (nonlinear_arith)
        requires
            20 * t <= 27 * h + 20,
            0 < d,
    ;
    lemma_aside(n, depth);
    assert(t * d <= n.raw * 0x1_0000_0000 || t * d <= -n.raw * 0x1_0000_0000);
    assert(t * depth.raw == t * d);
    assert(t <= (n / depth).magnitude().raw);
    lemma_counts_for_nothing((n / depth).magnitude(), half);
}

/// What is well outside the frame is not seen: a point further up or down, or further aside, than
/// twenty seven twentieths of its depth times the tangent on that side.
pub proof fn law_well_outside_the_frame_is_unseen(
    frame: Frame<Fixed>,
    eye: Vec3<Fixed>,
    point: Vec3<Fixed>,
)
    requires
        framed(frame),
        near_enough(point - eye),
        ({
            let v = point - eye;
            let (d, u, r) = (v.along(frame.forward).raw, v.along(frame.up).raw, v.along(
                frame.right,
            ).raw);
            let (tall, wide) = (
                27 * (frame.tan_v.raw * d) + 20 * d,
                27 * (frame.tan_h.raw * d) + 20 * d,
            );
            &&& 0x1_0000 <= d
            &&& ({
                ||| tall <= 20 * (u * 0x1_0000_0000)
                ||| tall <= 20 * (-u * 0x1_0000_0000)
                ||| wide <= 20 * (r * 0x1_0000_0000)
                ||| wide <= 20 * (-r * 0x1_0000_0000)
            })
            &&& (v.along(frame.up) / v.along(frame.forward)).magnitude().raw <= 0x4000_0000_0000_0000
            &&& (v.along(frame.right) / v.along(frame.forward)).magnitude().raw
                <= 0x4000_0000_0000_0000
        }),
    ensures
        frame.sees(eye, point) is None,
{
    let v = point - eye;
    lemma_along(v, frame.forward);
    lemma_along(v, frame.up);
    lemma_along(v, frame.right);
    let (d, u, r) = (v.along(frame.forward), v.along(frame.up), v.along(frame.right));
    assert(int_of::<Fixed>(0).raw == 0);
    let (a, b) = (
        fade((u / d).magnitude(), frame.tan_v),
        fade((r / d).magnitude(), frame.tan_h),
    );
    let tall = 27 * (frame.tan_v.raw * d.raw) + 20 * d.raw;
    if tall <= 20 * (u.raw * 0x1_0000_0000) || tall <= 20 * (-u.raw * 0x1_0000_0000) {
        lemma_past_the_slop(u, d, frame.tan_v);
        assert(a.raw * b.raw == 0) by (nonlinear_arith)
            requires
                a.raw == 0,
        ;
    } else {
        lemma_past_the_slop(r, d, frame.tan_h);
        assert(a.raw * b.raw == 0) by (nonlinear_arith)
            requires
                b.raw == 0,
        ;
    }
    assert((a * b).raw == 0);
}

} // verus!
