//! Directions, and a camera's frame made of them, in whole steps of the exact numbers.

use vstd::prelude::*;

use crate::coverage::short;
use crate::fixed::{is_integer_root, lemma_root_bounds, saturated, Fixed};
use crate::frame::{fade, Frame};
use crate::geometry::{scene_of, world_of, Vec3};
use crate::noise::lemma_product;
use crate::ripple_sim::{pi, Disc};
use crate::scalar::{int_of, Scalar};

verus! {

/// The square of a direction's length, in whole steps.
pub open spec fn length_squared(v: Vec3<Fixed>) -> int {
    v.x.raw * v.x.raw + v.y.raw * v.y.raw + v.z.raw * v.z.raw
}

/// Whether every part of a direction is within sixty-four.
pub open spec fn brief(v: Vec3<Fixed>) -> bool {
    &&& -0x40_0000_0000 <= v.x.raw <= 0x40_0000_0000
    &&& -0x40_0000_0000 <= v.y.raw <= 0x40_0000_0000
    &&& -0x40_0000_0000 <= v.z.raw <= 0x40_0000_0000
}

/// Whether `r` is a direction's length, but for what the numbers round.
pub open spec fn is_length(r: int, v: Vec3<Fixed>) -> bool {
    &&& r * r <= length_squared(v)
    &&& length_squared(v) < (r + 1) * (r + 1) + 0x3_0000_0000
}

/// Whether `u` is to one as `n` is to a length `r`, but for what the numbers round.
pub open spec fn is_part(u: int, n: int, r: int) -> bool {
    let miss = (u * r - n * 0x1_0000_0000) * 0x1_0000_0000;
    let most = r * ((if n < 0 {
        -n
    } else {
        n
    }) + 0x1_0000_0000);
    -most <= miss <= most
}

/// A direction brought to length one points the same way: every part is to one as it was to the
/// length. Nothing at all has no direction, and stays nothing.
#[verifier::spinoff_prover]
pub proof fn law_length_one_points_the_same_way(v: Vec3<Fixed>)
    requires
        brief(v),
    ensures
        v.along(v).raw > 0 ==> exists|r: int|
            {
                &&& #[trigger] is_length(r, v)
                &&& is_part(v.unit().x.raw as int, v.x.raw as int, r)
                &&& is_part(v.unit().y.raw as int, v.y.raw as int, r)
                &&& is_part(v.unit().z.raw as int, v.z.raw as int, r)
            },
        v.x.raw == 0 && v.y.raw == 0 && v.z.raw == 0 ==> v.unit() == v,
{
    let s = v.along(v);
    lemma_square_of(v);
    assert(int_of::<Fixed>(0).raw == 0 && int_of::<Fixed>(1).raw == 0x1_0000_0000);
    if s.raw > 0 {
        lemma_root_bounds(s);
        let root = s.root();
        let r = root.raw as int;
        assert(0xffff <= r <= 0x80_0000_0000) by (nonlinear_arith)
            requires
                r * r <= s.raw * 0x1_0000_0000,
                s.raw * 0x1_0000_0000 < (r + 1) * (r + 1),
                0 <= r,
                1 <= s.raw <= 0x3000_0000_0000,
        ;
        assert(is_length(r, v));
        let k = v.inverse_length();
        assert(k == int_of::<Fixed>(1) / root);
        lemma_inverse(r, k);
        lemma_shortened(v.x, k, r);
        lemma_shortened(v.y, k, r);
        lemma_shortened(v.z, k, r);
        assert(v.unit() == v * k);
    }
    if v.x.raw == 0 && v.y.raw == 0 && v.z.raw == 0 {
        let none = Fixed { raw: 0 };
        assert forall|q: Fixed| #[trigger] (none * q) == none by {
            let p = 0 * q.raw;
            assert(p == 0);
        }
        assert(s == none * none + none * none + none * none);
        assert(v.unit() == v);
    }
}

proof fn lemma_square_of(v: Vec3<Fixed>)
    requires
        brief(v),
    ensures
        v.along(v).raw * 0x1_0000_0000 <= length_squared(v) < (v.along(v).raw + 3) * 0x1_0000_0000,
        0 <= v.along(v).raw <= 0x3000_0000_0000,
{
    lemma_one_square(v.x);
    lemma_one_square(v.y);
    lemma_one_square(v.z);
}

proof fn lemma_one_square(x: Fixed)
    requires
        -0x40_0000_0000 <= x.raw <= 0x40_0000_0000,
    ensures
        (x * x).raw * 0x1_0000_0000 <= x.raw * x.raw < ((x * x).raw + 1) * 0x1_0000_0000,
        0 <= (x * x).raw <= 0x1000_0000_0000,
{
    let p = x.raw * x.raw;
    assert(0 <= p <= 0x1000_0000_0000_0000_0000) by (nonlinear_arith)
        requires
            p == x.raw * x.raw,
            -0x40_0000_0000 <= x.raw <= 0x40_0000_0000,
    ;
    lemma_product(x, x);
}

proof fn lemma_inverse(r: int, k: Fixed)
    requires
        0xffff <= r <= 0x80_0000_0000,
        k == int_of::<Fixed>(1) / (Fixed { raw: r as i64 }),
    ensures
        0 < k.raw <= 0x2_0000_0000_0000,
        0 <= 0x1_0000_0000_0000_0000 - k.raw * r <= r,
{
    assert(int_of::<Fixed>(1).raw == 0x1_0000_0000);
    let n = 0x1_0000_0000_0000_0000int;
    let q = n / r;
    vstd::arithmetic::div_mod::lemma_fundamental_div_mod(n, r);
    vstd::arithmetic::div_mod::lemma_mod_bound(n, r);
    assert(q * r == n - n % r) by (nonlinear_arith)
        requires
            n == r * q + n % r,
    ;
    assert(0 < q <= 0x2_0000_0000_0000) by (nonlinear_arith)
        requires
            q * r <= n,
            q * r > n - r,
            0xffff <= r <= 0x80_0000_0000,
            n == 0x1_0000_0000_0000_0000,
    ;
    assert(k == saturated(q));
}

proof fn lemma_shortened(x: Fixed, k: Fixed, r: int)
    requires
        -0x40_0000_0000 <= x.raw <= 0x40_0000_0000,
        0xffff <= r,
        0 < k.raw <= 0x2_0000_0000_0000,
        0 <= 0x1_0000_0000_0000_0000 - k.raw * r <= r,
    ensures
        is_part((x * k).raw as int, x.raw as int, r),
{
    let (n, m) = (x.raw as int, k.raw as int);
    let p = n * m;
    assert(-0x100_0000_0000_0000_0000_0000 <= p <= 0x100_0000_0000_0000_0000_0000) by (nonlinear_arith)
        requires
            p == n * m,
            -0x40_0000_0000 <= n <= 0x40_0000_0000,
            0 < m <= 0x2_0000_0000_0000,
    ;
    lemma_product(x, k);
    let u = (x * k).raw as int;
    let lost = p - u * 0x1_0000_0000;
    let left = 0x1_0000_0000_0000_0000 - m * r;
    let (ur, pr, nl, lr) = (u * r, p * r, n * left, lost * r);
    assert(pr == 0x1_0000_0000_0000_0000 * n - nl) by (nonlinear_arith)
        requires
            pr == p * r,
            p == n * m,
            nl == n * left,
            left == 0x1_0000_0000_0000_0000 - m * r,
    ;
    assert(0x1_0000_0000 * ur == pr - lr) by (nonlinear_arith)
        requires
            ur == u * r,
            pr == p * r,
            lr == lost * r,
            lost == p - u * 0x1_0000_0000,
    ;
    let size = if n < 0 {
        -n
    } else {
        n
    };
    assert(-(r * size) <= nl <= r * size) by (nonlinear_arith)
        requires
            nl == n * left,
            0 <= left <= r,
            -size <= n <= size,
    ;
    assert(0 <= lr <= r * 0x1_0000_0000) by (nonlinear_arith)
        requires
            lr == lost * r,
            0 <= lost <= 0x1_0000_0000,
            0 <= r,
    ;
    assert(r * (size + 0x1_0000_0000) == r * size + r * 0x1_0000_0000) by (nonlinear_arith);
}

/// Whether `n` is a product less another, in whole steps, to within one.
pub open spec fn is_difference(n: int, more: int, less: int) -> bool {
    (n - 1) * 0x1_0000_0000 < more - less < (n + 1) * 0x1_0000_0000
}

/// The direction across two others is square to both: on every axis it is what the one has of the next
/// axis times what the other has of the one after, less the same the other way round.
pub proof fn law_a_direction_across_is_square_to_both(a: Vec3<Fixed>, b: Vec3<Fixed>)
    requires
        short(a),
        short(b),
    ensures
        ({
            let c = a.across(b);
            &&& is_difference(c.x.raw as int, a.y.raw * b.z.raw, a.z.raw * b.y.raw)
            &&& is_difference(c.y.raw as int, a.z.raw * b.x.raw, a.x.raw * b.z.raw)
            &&& is_difference(c.z.raw as int, a.x.raw * b.y.raw, a.y.raw * b.x.raw)
        }),
{
    lemma_difference(a.y, b.z, b.y, a.z);
    lemma_difference(a.z, b.x, b.z, a.x);
    lemma_difference(a.x, b.y, b.x, a.y);
}

proof fn lemma_difference(a: Fixed, b: Fixed, c: Fixed, d: Fixed)
    requires
        -0x2_0000_0000 <= a.raw <= 0x2_0000_0000,
        -0x2_0000_0000 <= b.raw <= 0x2_0000_0000,
        -0x2_0000_0000 <= c.raw <= 0x2_0000_0000,
        -0x2_0000_0000 <= d.raw <= 0x2_0000_0000,
    ensures
        is_difference((a * b - c * d).raw as int, a.raw * b.raw, d.raw * c.raw),
{
    let (p, q) = (a.raw * b.raw, c.raw * d.raw);
    assert(-0x4_0000_0000_0000_0000 <= p <= 0x4_0000_0000_0000_0000) by (nonlinear_arith)
        requires
            p == a.raw * b.raw,
            -0x2_0000_0000 <= a.raw <= 0x2_0000_0000,
            -0x2_0000_0000 <= b.raw <= 0x2_0000_0000,
    ;
    assert(-0x4_0000_0000_0000_0000 <= q <= 0x4_0000_0000_0000_0000) by (nonlinear_arith)
        requires
            q == c.raw * d.raw,
            -0x2_0000_0000 <= c.raw <= 0x2_0000_0000,
            -0x2_0000_0000 <= d.raw <= 0x2_0000_0000,
    ;
    assert(d.raw * c.raw == q) by (nonlinear_arith)
        requires
            q == c.raw * d.raw,
    ;
    lemma_product(a, b);
    lemma_product(c, d);
}

/// A frame looks along its camera, its right is across its view from its up, and what is up in it is
/// the camera's less what of that lies along the view. Its picture is as much wider than it is tall as
/// the aspect says, and no thinner than a tenth.
pub proof fn law_a_frame_is_squared_against_its_view(
    forward: Vec3<Fixed>,
    up: Vec3<Fixed>,
    tan_v: Fixed,
    aspect: Fixed,
)
    requires
        0 <= tan_v.raw <= 0x1000_0000_0000,
        aspect.raw <= 0x1000_0000_0000,
    ensures
        ({
            let f = Frame::of(forward, up, tan_v, aspect);
            let wide = if aspect.raw < 429496729 {
                429496729
            } else {
                aspect.raw as int
            };
            let along = f.forward.along(up);
            &&& f.forward == forward.unit()
            &&& f.right == f.forward.across(f.up).unit()
            &&& f.up == (up - f.forward * along).unit()
            &&& f.tan_v == tan_v
            &&& f.tan_h.raw * 0x1_0000_0000 <= tan_v.raw * wide
            &&& tan_v.raw * wide < (f.tan_h.raw + 1) * 0x1_0000_0000
        }),
{
    let thin = Fixed::frac(1, 10);
    assert(thin.raw == 429496729);
    let wide = aspect.greater(thin);
    let p = tan_v.raw * wide.raw;
    assert(0 <= p <= 0x100_0000_0000_0000_0000_0000) by (nonlinear_arith)
        requires
            p == tan_v.raw * wide.raw,
            0 <= tan_v.raw <= 0x1000_0000_0000,
            0 <= wide.raw <= 0x1000_0000_0000,
    ;
    lemma_product(tan_v, wide);
}

/// The game's axes and the scene's: the game's third is the scene's second, the game's first runs
/// against the scene's third, and the game's second against the scene's first.
pub proof fn law_the_worlds_axes_are_the_scenes_turned(p: Vec3<Fixed>)
    requires
        i64::MIN < p.x.raw,
        i64::MIN < p.y.raw,
        i64::MIN < p.z.raw,
    ensures
        scene_of(p).x.raw == -p.y.raw,
        scene_of(p).y.raw == p.z.raw,
        scene_of(p).z.raw == -p.x.raw,
        world_of(p).x.raw == -p.z.raw,
        world_of(p).y.raw == -p.x.raw,
        world_of(p).z.raw == p.y.raw,
{
}

/// Past the frame's edge a surface fades evenly: what counts is to one as what is left of the way to
/// twenty-seven twentieths of the edge is to the whole of it, but for what the numbers round.
#[verifier::spinoff_prover]
pub proof fn law_past_the_edge_it_fades_evenly(offset: Fixed, half: Fixed)
    requires
        0x1_0000 <= half.raw <= 0x10_0000_0000,
        half.raw <= offset.raw,
        20 * offset.raw <= 27 * half.raw - 20 * 0x1_0000,
    ensures
        ({
            let whole = 7 * half.raw;
            let left = 27 * half.raw - 20 * offset.raw;
            let miss = fade(offset, half).raw * whole - left * 0x1_0000_0000;
            -0xf0_0000_0000 <= miss <= whole
        }),
{
    let slop = crate::frame::frame_slop::<Fixed>();
    assert(slop.raw == 5798205849);
    let h = half.raw as int;
    let p = half.raw * slop.raw;
    assert(p == h * 5798205849) by (nonlinear_arith)
        requires
            p == half.raw * slop.raw,
            h == half.raw,
            slop.raw == 5798205849,
    ;
    let outer = half * slop;
    assert(outer.raw == (h * 5798205849) / 0x1_0000_0000);
    let w = outer - half;
    let d = offset - half;
    assert(w.raw == outer.raw - h && d.raw == offset.raw - h);
    assert(20 * w.raw <= 7 * h);
    assert(7 * h <= 20 * w.raw + 240);
    assert(0 < w.raw);
    let n = d.raw * 0x1_0000_0000;
    let q = n / w.raw as int;
    vstd::arithmetic::div_mod::lemma_fundamental_div_mod(n, w.raw as int);
    vstd::arithmetic::div_mod::lemma_mod_bound(n, w.raw as int);
    let qw = q * w.raw;
    assert(qw == n - n % w.raw as int) by (nonlinear_arith)
        requires
            n == w.raw * q + n % w.raw as int,
            qw == q * w.raw,
    ;
    assert(d.raw <= w.raw);
    assert(0 <= q <= 0x1_0000_0000) by (nonlinear_arith)
        requires
            qw == q * w.raw,
            0 <= qw + w.raw - 1,
            qw <= w.raw * 0x1_0000_0000,
            0 < w.raw,
    ;
    assert((d / w) == saturated(q));
    assert(int_of::<Fixed>(1).raw == 0x1_0000_0000 && int_of::<Fixed>(0).raw == 0);
    let f = fade(offset, half).raw as int;
    assert(f == 0x1_0000_0000 - q);
    // seven halves are twenty widths, to within a few
    let e = 7 * h - 20 * w.raw;
    assert(f * (7 * h) == 7 * h * 0x1_0000_0000 - 20 * qw - q * e) by (nonlinear_arith)
        requires
            f == 0x1_0000_0000 - q,
            e == 7 * h - 20 * w.raw,
            qw == q * w.raw,
    ;
    assert(0 <= q * e <= 0xf0_0000_0000) by (nonlinear_arith)
        requires
            0 <= q <= 0x1_0000_0000,
            0 <= e <= 240,
    ;
}

/// Whether `s` is to one as the root of `o` is to the root of `rr`, but for what the numbers round.
pub open spec fn is_root_of_share(s: int, o: int, rr: int) -> bool {
    &&& s * s * rr <= o * 0x1_0000_0000 * 0x1_0000_0000
    &&& o * 0x1_0000_0000 * 0x1_0000_0000 <= ((s + 1) * (s + 1) + 0x1_0000_0000) * rr
}

/// A push turns evenly from its middle to its edge: the angle is a half turn by the share of the radius
/// that the cell is out.
pub proof fn law_a_push_turns_a_half_at_its_edge(disc: Disc<Fixed>, k: int)
    requires
        0 < (disc.r * disc.r).raw,
        0 < disc.offset(k).raw <= (disc.r * disc.r).raw,
    ensures
        exists|s: int|
            {
                &&& #[trigger] is_root_of_share(s, disc.offset(k).raw as int, (disc.r * disc.r).raw as int)
                &&& 0 <= s
                &&& disc.phase(k).raw == (13493037704 * s) / 0x1_0000_0000
            },
{
    let (o, rr) = (disc.offset(k), disc.r * disc.r);
    let n = o.raw * 0x1_0000_0000;
    let q = n / rr.raw as int;
    vstd::arithmetic::div_mod::lemma_fundamental_div_mod(n, rr.raw as int);
    vstd::arithmetic::div_mod::lemma_mod_bound(n, rr.raw as int);
    let (m, c) = (rr.raw as int, q * rr.raw);
    assert(c == n - n % m) by (nonlinear_arith)
        requires
            n == m * q + n % m,
            c == q * m,
    ;
    assert(0 <= q <= 0x1_0000_0000) by (nonlinear_arith)
        requires
            c == q * m,
            0 <= c + m - 1,
            c <= m * 0x1_0000_0000,
            0 < m,
    ;
    let share = o / rr;
    assert(share == saturated(q));
    let s = share.root().raw as int;
    if q > 0 {
        lemma_root_bounds(share);
    }
    assert(is_integer_root(q * 0x1_0000_0000, s)) by {
        if q == 0 {
            assert(s == 0);
            assert(0 * 0 == 0 && 1 * 1 == 1int);
        }
    }
    assert(s <= 0x1_0000_0000) by (nonlinear_arith)
        requires
            s * s <= q * 0x1_0000_0000,
            0 <= s,
            q <= 0x1_0000_0000,
    ;
    let turn = pi::<Fixed>();
    assert(turn.raw == 13493037704);
    let p = turn.raw * share.root().raw;
    assert(p == 13493037704 * s) by (nonlinear_arith)
        requires
            p == turn.raw * share.root().raw,
            turn.raw == 13493037704,
            s == share.root().raw,
    ;
    lemma_share_bounds(s, q, o.raw as int, m, c);
}

proof fn lemma_share_bounds(s: int, q: int, o: int, m: int, c: int)
    requires
        0 < m,
        c == q * m,
        c <= o * 0x1_0000_0000 < c + m,
        s * s <= q * 0x1_0000_0000 < (s + 1) * (s + 1),
    ensures
        is_root_of_share(s, o, m),
{
    let (a, b) = (s * s, (s + 1) * (s + 1));
    assert(a * m <= 0x1_0000_0000 * c && 0x1_0000_0000 * c <= b * m) by (nonlinear_arith)
        requires
            a <= q * 0x1_0000_0000,
            q * 0x1_0000_0000 < b,
            c == q * m,
            0 < m,
    ;
    assert((b + 0x1_0000_0000) * m == b * m + 0x1_0000_0000 * m) by (nonlinear_arith);
}

/// What counts of a point is what of it counts on either axis, the one times the other.
pub proof fn law_what_counts_is_of_both_axes(
    frame: Frame<Fixed>,
    eye: Vec3<Fixed>,
    point: Vec3<Fixed>,
)
    ensures
        frame.sees(eye, point) matches Some(seen) ==> {
            let v = point - eye;
            let depth = v.along(frame.forward);
            let (a, b) = (
                fade((v.along(frame.up) / depth).magnitude(), frame.tan_v).raw,
                fade((v.along(frame.right) / depth).magnitude(), frame.tan_h).raw,
            );
            &&& seen.depth == depth
            &&& 0 < depth.raw
            &&& 0 < a <= 0x1_0000_0000
            &&& 0 < b <= 0x1_0000_0000
            &&& seen.weight.raw * 0x1_0000_0000 <= a * b < (seen.weight.raw + 1) * 0x1_0000_0000
        },
{
    if let Some(seen) = frame.sees(eye, point) {
        let v = point - eye;
        let depth = v.along(frame.forward);
        lemma_both_count(
            fade((v.along(frame.up) / depth).magnitude(), frame.tan_v),
            fade((v.along(frame.right) / depth).magnitude(), frame.tan_h),
            seen.weight,
        );
        lemma_fade_is_a_share((v.along(frame.up) / depth).magnitude(), frame.tan_v);
        lemma_fade_is_a_share((v.along(frame.right) / depth).magnitude(), frame.tan_h);
        assert(int_of::<Fixed>(0).raw == 0);
    }
}

proof fn lemma_fade_is_a_share(offset: Fixed, half: Fixed)
    ensures
        0 <= fade(offset, half).raw <= 0x1_0000_0000,
{
    assert(int_of::<Fixed>(1).raw == 0x1_0000_0000 && int_of::<Fixed>(0).raw == 0);
}

proof fn lemma_both_count(a: Fixed, b: Fixed, w: Fixed)
    ensures
        w == a * b && 0 <= a.raw <= 0x1_0000_0000 && 0 <= b.raw <= 0x1_0000_0000 ==> {
            &&& w.raw * 0x1_0000_0000 <= a.raw * b.raw < (w.raw + 1) * 0x1_0000_0000
            &&& w.raw > 0 ==> 0 < a.raw && 0 < b.raw
        },
{
    if w == a * b && 0 <= a.raw <= 0x1_0000_0000 && 0 <= b.raw <= 0x1_0000_0000 {
        let p = a.raw * b.raw;
        assert(0 <= p <= 0x1_0000_0000_0000_0000) by (nonlinear_arith)
            requires
                p == a.raw * b.raw,
                0 <= a.raw <= 0x1_0000_0000,
                0 <= b.raw <= 0x1_0000_0000,
        ;
        lemma_product(a, b);
        if a.raw == 0 || b.raw == 0 {
            assert(p == 0) by (nonlinear_arith)
                requires
                    p == a.raw * b.raw,
                    a.raw == 0 || b.raw == 0,
            ;
        }
    }
}

} // verus!
