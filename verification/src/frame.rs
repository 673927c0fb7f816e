//! The camera's frame, as the numbers a test of what is on screen needs.

use vstd::prelude::*;

use crate::fixed::{law_fixed_is_strictly_ordered, Fixed, ONE};
use crate::geometry::Vec3;
use crate::scalar::{clamp, clamped, int_of, ordered, whole_number, Scalar};

verus! {

/// How far past the frame's true edge a surface still counts as looked at.
pub open spec fn frame_slop<S: Scalar>() -> S {
    S::frac(135, 100)
}

/// How a surface's contribution falls off as it leaves the frame: whole inside, nothing well
/// outside, and in between linear.
pub open spec fn fade<S: Scalar>(offset: S, half_extent: S) -> S {
    let outer = half_extent * frame_slop::<S>();
    int_of::<S>(1) - clamped(
        (offset - half_extent) / (outer - half_extent),
        int_of::<S>(0),
        int_of::<S>(1),
    )
}

/// How a surface's contribution falls off as it leaves the frame. Fading it makes the score
/// continuous, so that a crossover between two bodies of water is a slow trade rather than a jump.
pub fn edge_fade<S: Scalar>(offset: S, half_extent: S) -> (r: S)
    ensures
        r == fade(offset, half_extent),
{
    let zero: S = whole_number(0);
    let one: S = whole_number(1);
    let slop: S = S::ratio(135, 100);
    let outer: S = half_extent.times(slop);
    one.minus(clamp(offset.minus(half_extent).over(outer.minus(half_extent)), zero, one))
}

/// How far in front of the eye a point on screen is, and how much of it counts.
pub struct Visible<S> {
    pub depth: S,
    pub weight: S,
}

/// A camera's frame.
pub struct Frame<S> {
    pub forward: Vec3<S>,
    /// Up and right, squared against `forward`.
    pub up: Vec3<S>,
    pub right: Vec3<S>,
    /// Tangents of the half angles.
    pub tan_v: S,
    pub tan_h: S,
}

impl<S: Copy> Clone for Frame<S> {
    fn clone(&self) -> (r: Self)
        ensures
            r == *self,
    {
        *self
    }
}

impl<S: Copy> Copy for Frame<S> {

}

impl<S: Scalar> Frame<S> {
    /// The frame of a camera whose vertical half angle has the tangent `tan_v`.
    pub open spec fn of(forward: Vec3<S>, up: Vec3<S>, tan_v: S, aspect: S) -> Self {
        let f = forward.unit();
        let u = (up - f * f.along(up)).unit();
        Frame {
            forward: f,
            up: u,
            right: f.across(u).unit(),
            tan_v,
            tan_h: tan_v * aspect.greater(S::frac(1, 10)),
        }
    }

    /// The frame of a camera looking along `forward` with `up` roughly upwards, a vertical field of
    /// view of `fov_y` and a picture `aspect` times as wide as it is tall. `tangent` answers the
    /// tangent of an angle.
    pub fn new<F: Fn(S) -> S>(
        forward: Vec3<S>,
        up: Vec3<S>,
        fov_y: S,
        aspect: S,
        tangent: &F,
    ) -> (r: Self)
        requires
            call_requires(*tangent, (fov_y * S::frac(1, 2),)),
        ensures
            exists|tan_v: S| #[trigger]
                call_ensures(*tangent, (fov_y * S::frac(1, 2),), tan_v) && r == Self::of(
                    forward,
                    up,
                    tan_v,
                    aspect,
                ),
    {
        let half: S = S::ratio(1, 2);
        let thin: S = S::ratio(1, 10);
        let f: Vec3<S> = forward.normalize_or_zero();
        let u: Vec3<S> = up.minus(f.scale(f.dot(up))).normalize_or_zero();
        let tan_v: S = tangent(fov_y.times(half));
        Frame {
            forward: f,
            up: u,
            right: f.cross(u).normalize_or_zero(),
            tan_v,
            tan_h: tan_v.times(aspect.greatest(thin)),
        }
    }

    /// How far in front of the eye a point is and how much of it counts; nothing when it is behind
    /// the camera or outside the frame.
    pub open spec fn sees(self, eye: Vec3<S>, point: Vec3<S>) -> Option<Visible<S>> {
        let v = point - eye;
        let depth = v.along(self.forward);
        let vertical = (v.along(self.up) / depth).magnitude();
        let horizontal = (v.along(self.right) / depth).magnitude();
        let weight = fade(vertical, self.tan_v) * fade(horizontal, self.tan_h);
        if !(depth <= int_of::<S>(0)) && int_of::<S>(0) < weight {
            Some(Visible { depth, weight })
        } else {
            None
        }
    }

    /// How far in front of the eye a point is, along the view and not in a straight line, and how
    /// much of it counts; nothing when it is behind the camera or outside the frame.
    pub fn depth_if_visible(&self, eye: Vec3<S>, point: Vec3<S>) -> (r: Option<Visible<S>>)
        ensures
            r == self.sees(eye, point),
    {
        let zero: S = whole_number(0);
        let v: Vec3<S> = point.minus(eye);
        let depth: S = v.dot(self.forward);
        if depth.at_most(zero) {
            return None;
        }
        let vertical: S = v.dot(self.up).over(depth).absolute();
        let horizontal: S = v.dot(self.right).over(depth).absolute();
        let weight: S = edge_fade(vertical, self.tan_v).times(
            edge_fade(horizontal, self.tan_h),
        );
        if zero.less(weight) {
            Some(Visible { depth, weight })
        } else {
            None
        }
    }
}

/// What is behind the camera is not in its frame.
pub proof fn law_nothing_behind_the_camera<S: Scalar>(frame: Frame<S>, eye: Vec3<S>, point: Vec3<S>)
    requires
        (point - eye).along(frame.forward) <= int_of::<S>(0),
    ensures
        frame.sees(eye, point) is None,
{
}

/// Whether a number's arithmetic keeps the order of the numbers it works on, rounding or not: taking
/// the same away from two, dividing both by the same, or taking both from one, never swaps them; and
/// what is taken from itself or divided by itself leaves nothing or one. Single precision numbers
/// do, short of their undefined results.
pub open spec fn keeps_order<S: Scalar>() -> bool {
    let zero = int_of::<S>(0);
    let one = int_of::<S>(1);
    &&& ordered::<S>()
    &&& zero <= one
    &&& zero.finite() && one.finite()
    &&& one - zero == one
    &&& one - one == zero
    &&& forall|a: S, b: S, c: S|
        #![trigger a - c, b - c]
        a.finite() && b.finite() && c.finite() && a <= b ==> a - c <= b - c
    &&& forall|a: S, b: S, d: S|
        #![trigger a / d, b / d]
        d.finite() && zero < d && a <= b ==> a / d <= b / d
    &&& forall|a: S, b: S|
        #![trigger one - a, one - b]
        a.finite() && b.finite() && a <= b ==> one - b <= one - a
    &&& forall|a: S| a.finite() ==> #[trigger] (a - a) == zero
    &&& forall|d: S| d.finite() && zero < d ==> zero / d == zero && #[trigger] (d / d) == one
    &&& forall|a: S| zero <= a && a <= one ==> #[trigger] a.finite()
}

/// The crate's own numbers keep their order.
pub proof fn law_fixed_keeps_order()
    ensures
        keeps_order::<Fixed>(),
{
    law_fixed_is_strictly_ordered();
    let zero = int_of::<Fixed>(0);
    let one = int_of::<Fixed>(1);
    assert(zero.raw == 0);
    assert(one.raw == ONE);
    assert forall|a: Fixed, b: Fixed, d: Fixed|
        #![trigger a / d, b / d]
        d.finite() && zero < d && a <= b implies a / d <= b / d by {
        assert(a.raw * ONE <= b.raw * ONE);
        vstd::arithmetic::div_mod::lemma_div_is_ordered(a.raw * ONE, b.raw * ONE, d.raw as int);
    }
    assert forall|d: Fixed| d.finite() && zero < d implies zero / d == zero && #[trigger] (d / d)
        == one by {
        let n = d.raw as int;
        assert(0int / n == 0) by (nonlinear_arith)
            requires
                n > 0,
        ;
        vstd::arithmetic::div_mod::lemma_div_by_multiple(ONE as int, n);
        assert(ONE * n == n * ONE) by (nonlinear_arith);
    }
}

/// How far past the frame a surface is, as a share of the slop, held between nothing and all of it.
spec fn overshoot<S: Scalar>(offset: S, half_extent: S) -> S {
    clamped(
        (offset - half_extent) / (half_extent * frame_slop::<S>() - half_extent),
        int_of::<S>(0),
        int_of::<S>(1),
    )
}

/// Whether a frame has an edge to fade over.
pub open spec fn has_edge<S: Scalar>(half_extent: S) -> bool {
    let outer = half_extent * frame_slop::<S>();
    &&& half_extent.finite()
    &&& outer.finite()
    &&& (outer - half_extent).finite()
    &&& int_of::<S>(0) < outer - half_extent
}

proof fn lemma_clamped_between<S: Scalar>(x: S)
    requires
        keeps_order::<S>(),
        x <= x,
    ensures
        ({
            let (zero, one) = (int_of::<S>(0), int_of::<S>(1));
            let c = clamped(x, zero, one);
            &&& zero <= c && c <= one && c.finite()
            &&& x <= zero ==> c <= zero
            &&& one <= x ==> one <= c
        }),
{
    let (zero, one) = (int_of::<S>(0), int_of::<S>(1));
    assert(zero.spec_le(one));
    if !(x < zero) {
        assert(!x.spec_lt(zero));
        assert(zero.spec_le(x));
        if !(one < x) {
            assert(!one.spec_lt(x));
            assert(x.spec_le(one));
        }
    } else {
        assert(!zero.spec_le(x));
        if one < zero {
            assert(one.spec_lt(zero));
        }
        if one <= x {
            assert(zero.spec_le(one) && one.spec_le(x));
        }
    }
}

proof fn lemma_clamped_ordered<S: Scalar>(x: S, y: S)
    requires
        keeps_order::<S>(),
        x <= y,
    ensures
        clamped(x, int_of::<S>(0), int_of::<S>(1)) <= clamped(y, int_of::<S>(0), int_of::<S>(1)),
{
    let (zero, one) = (int_of::<S>(0), int_of::<S>(1));
    assert(x.spec_le(y));
    lemma_clamped_between(x);
    lemma_clamped_between(y);
    let (c, d) = (clamped(x, zero, one), clamped(y, zero, one));
    if x < zero {
        assert(!one.spec_lt(zero));
        assert(c == zero);
    } else {
        assert(!x.spec_lt(zero));
        assert(zero.spec_le(x) && x.spec_le(y));
        assert(!(y < zero)) by {
            if y < zero {
                assert(y.spec_lt(zero));
                assert(zero.spec_le(y));
            }
        }
        if one < y {
            assert(d == one);
        } else {
            assert(!one.spec_lt(y));
            assert(y.spec_le(one));
            assert(x.spec_le(one));
            assert(!(one < x)) by {
                if one < x {
                    assert(one.spec_lt(x));
                }
            }
            assert(c == x && d == y);
        }
    }
}

/// A surface fades out of the frame instead of vanishing: it never counts for less than nothing nor
/// for more than all of it, the further out it is the less it counts, it counts in full up to the
/// frame's edge, and not at all past the slop.
pub proof fn law_a_surface_fades_out<S: Scalar>(near: S, far: S, half_extent: S)
    requires
        keeps_order::<S>(),
        has_edge(half_extent),
        near.finite(),
        far.finite(),
        near <= far,
    ensures
        ({
            let (zero, one) = (int_of::<S>(0), int_of::<S>(1));
            let outer = half_extent * frame_slop::<S>();
            &&& zero <= fade(near, half_extent) && fade(near, half_extent) <= one
            &&& fade(far, half_extent) <= fade(near, half_extent)
            &&& near <= half_extent ==> one <= fade(near, half_extent)
            &&& outer <= near ==> fade(near, half_extent) <= zero
        }),
{
    let (zero, one) = (int_of::<S>(0), int_of::<S>(1));
    let outer = half_extent * frame_slop::<S>();
    let d = outer - half_extent;
    let (x, y) = ((near - half_extent) / d, (far - half_extent) / d);
    assert(near - half_extent <= far - half_extent);
    assert(x <= y);
    assert(x.spec_le(y));
    lemma_clamped_between(x);
    lemma_clamped_between(y);
    lemma_clamped_ordered(x, y);
    let (p, q) = (overshoot(near, half_extent), overshoot(far, half_extent));
    assert(fade(near, half_extent) == one - p && fade(far, half_extent) == one - q);
    assert(one - q <= one - p);
    assert(one - p <= one - zero);
    assert(one - one <= one - p);
    if near <= half_extent {
        assert(near - half_extent <= half_extent - half_extent);
        assert(x <= zero / d) by {
            assert(d / d == one);
        }
        assert(p <= zero);
        assert(one - zero <= one - p);
    }
    if outer <= near {
        assert(outer - half_extent <= near - half_extent);
        assert(d / d <= x);
        assert(one <= p);
        assert(one - p <= one - one);
    }
}

} // verus!
