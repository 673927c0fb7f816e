//! Points and directions in the plane and in space, and the two axis conventions the world is
//! described in.

use vstd::prelude::*;

use crate::scalar::{int_of, whole_number, Scalar};

verus! {

/// A point or a direction in the plane.
#[derive(Debug, PartialEq)]
pub struct Vec2<S> {
    pub x: S,
    pub y: S,
}

/// A point or a direction in space.
#[derive(Debug, PartialEq)]
pub struct Vec3<S> {
    pub x: S,
    pub y: S,
    pub z: S,
}

/// Four numbers that travel to a shader together.
#[derive(Debug, PartialEq)]
pub struct Vec4<S> {
    pub x: S,
    pub y: S,
    pub z: S,
    pub w: S,
}

impl<S: Copy> Clone for Vec4<S> {
    fn clone(&self) -> (r: Self)
        ensures
            r == *self,
    {
        *self
    }
}

impl<S: Copy> Copy for Vec4<S> {

}

impl<S: Scalar> Vec4<S> {
    /// Four times the same number.
    pub open spec fn all(v: S) -> Self {
        Vec4 { x: v, y: v, z: v, w: v }
    }

    /// Four times the same number.
    pub fn splat(v: S) -> (r: Self)
        ensures
            r == Self::all(v),
    {
        Vec4 { x: v, y: v, z: v, w: v }
    }
}

impl<S: Copy> Clone for Vec2<S> {
    fn clone(&self) -> (r: Self)
        ensures
            r == *self,
    {
        *self
    }
}

impl<S: Copy> Copy for Vec2<S> {

}

impl<S: Copy> Clone for Vec3<S> {
    fn clone(&self) -> (r: Self)
        ensures
            r == *self,
    {
        *self
    }
}

impl<S: Copy> Copy for Vec3<S> {

}

impl<S: Scalar> Vec2<S> {
    pub open spec fn spec_add(self, other: Self) -> Self {
        Vec2 { x: self.x + other.x, y: self.y + other.y }
    }

    pub open spec fn spec_sub(self, other: Self) -> Self {
        Vec2 { x: self.x - other.x, y: self.y - other.y }
    }

    /// Every coordinate times `k`.
    pub open spec fn spec_mul(self, k: S) -> Self {
        Vec2 { x: self.x * k, y: self.y * k }
    }

    /// Every coordinate over `k`.
    pub open spec fn spec_euclidean_or_real_div(self, k: S) -> Self {
        Vec2 { x: self.x / k, y: self.y / k }
    }

    /// The squared length.
    pub open spec fn square(self) -> S {
        self.x * self.x + self.y * self.y
    }

    /// The length.
    pub open spec fn measure(self) -> S {
        self.square().root()
    }

    pub fn plus(self, other: Self) -> (r: Self)
        ensures
            r == self + other,
    {
        Vec2 { x: self.x.plus(other.x), y: self.y.plus(other.y) }
    }

    pub fn minus(self, other: Self) -> (r: Self)
        ensures
            r == self - other,
    {
        Vec2 { x: self.x.minus(other.x), y: self.y.minus(other.y) }
    }

    pub fn scale(self, k: S) -> (r: Self)
        ensures
            r == self * k,
    {
        Vec2 { x: self.x.times(k), y: self.y.times(k) }
    }

    pub fn shrink(self, k: S) -> (r: Self)
        ensures
            r == self / k,
    {
        Vec2 { x: self.x.over(k), y: self.y.over(k) }
    }

    pub fn length_squared(self) -> (r: S)
        ensures
            r == self.square(),
    {
        self.x.times(self.x).plus(self.y.times(self.y))
    }

    pub fn length(self) -> (r: S)
        ensures
            r == self.measure(),
    {
        self.length_squared().sqrt()
    }
}

impl<S: Scalar> Vec3<S> {
    /// The point seen from above: the scene's first and third axes.
    pub open spec fn flat(self) -> Vec2<S> {
        Vec2 { x: self.x, y: self.z }
    }

    /// The point seen from above.
    pub fn from_above(self) -> (r: Vec2<S>)
        ensures
            r == self.flat(),
    {
        Vec2 { x: self.x, y: self.z }
    }

    pub open spec fn spec_sub(self, other: Self) -> Self {
        Vec3 { x: self.x - other.x, y: self.y - other.y, z: self.z - other.z }
    }

    /// Every coordinate times `k`.
    pub open spec fn spec_mul(self, k: S) -> Self {
        Vec3 { x: self.x * k, y: self.y * k, z: self.z * k }
    }

    /// The dot product.
    pub open spec fn along(self, other: Self) -> S {
        self.x * other.x + self.y * other.y + self.z * other.z
    }

    /// The cross product.
    pub open spec fn across(self, other: Self) -> Self {
        Vec3 {
            x: self.y * other.z - other.y * self.z,
            y: self.z * other.x - other.z * self.x,
            z: self.x * other.y - other.x * self.y,
        }
    }

    /// One over the length.
    pub open spec fn inverse_length(self) -> S {
        int_of::<S>(1) / self.along(self).root()
    }

    /// The direction with length one, or nothing at all where there is no direction to speak of.
    pub open spec fn unit(self) -> Self {
        let k = self.inverse_length();
        if k.finite() && int_of::<S>(0) < k {
            self * k
        } else {
            Vec3 { x: int_of::<S>(0), y: int_of::<S>(0), z: int_of::<S>(0) }
        }
    }

    /// The direction mirrored through a level plane: as far up as this one goes down.
    pub open spec fn reflected(self) -> Self {
        Vec3 { x: self.x, y: -self.y, z: self.z }
    }

    pub fn minus(self, other: Self) -> (r: Self)
        ensures
            r == self - other,
    {
        Vec3 { x: self.x.minus(other.x), y: self.y.minus(other.y), z: self.z.minus(other.z) }
    }

    pub fn scale(self, k: S) -> (r: Self)
        ensures
            r == self * k,
    {
        Vec3 { x: self.x.times(k), y: self.y.times(k), z: self.z.times(k) }
    }

    pub fn dot(self, other: Self) -> (r: S)
        ensures
            r == self.along(other),
    {
        self.x.times(other.x).plus(self.y.times(other.y)).plus(self.z.times(other.z))
    }

    pub fn cross(self, other: Self) -> (r: Self)
        ensures
            r == self.across(other),
    {
        Vec3 {
            x: self.y.times(other.z).minus(other.y.times(self.z)),
            y: self.z.times(other.x).minus(other.z.times(self.x)),
            z: self.x.times(other.y).minus(other.x.times(self.y)),
        }
    }

    /// Scale to length one, or to nothing where there is no direction to speak of.
    pub fn normalize_or_zero(self) -> (r: Self)
        ensures
            r == self.unit(),
    {
        let zero: S = whole_number(0);
        let one: S = whole_number(1);
        let k: S = one.over(self.dot(self).sqrt());
        if k.is_finite() && zero.less(k) {
            self.scale(k)
        } else {
            Vec3 { x: zero, y: zero, z: zero }
        }
    }

    pub fn reflect(self) -> (r: Self)
        ensures
            r == self.reflected(),
    {
        Vec3 { x: self.x, y: self.y.negated(), z: self.z }
    }
}

/// A point of the game world, whose third axis is up, in the scene's axes, whose second is.
///
/// The world's first axis runs against the scene's third and its second against the scene's
/// first.
pub open spec fn scene_of<S: Scalar>(world: Vec3<S>) -> Vec3<S> {
    Vec3 { x: -world.y, y: world.z, z: -world.x }
}

/// A point of the scene in the game world's axes.
pub open spec fn world_of<S: Scalar>(scene: Vec3<S>) -> Vec3<S> {
    Vec3 { x: -scene.z, y: -scene.x, z: scene.y }
}

/// Carry a point of the game world into the scene's axes.
pub fn wow_to_bevy<S: Scalar>(world: Vec3<S>) -> (r: Vec3<S>)
    ensures
        r == scene_of(world),
{
    Vec3 { x: world.y.negated(), y: world.z, z: world.x.negated() }
}

/// Carry a point of the scene into the game world's axes.
pub fn bevy_to_wow<S: Scalar>(scene: Vec3<S>) -> (r: Vec3<S>)
    ensures
        r == world_of(scene),
{
    Vec3 { x: scene.z.negated(), y: scene.x.negated(), z: scene.y }
}

/// The two conventions are one change of axes and its inverse: a point carried over and back is
/// the point it was, wherever negating a number twice gives it back.
pub proof fn law_axes_round_trip<S: Scalar>(p: Vec3<S>)
    requires
        forall|n: S| -(#[trigger] -n) == n,
    ensures
        scene_of(world_of(p)) == p,
        world_of(scene_of(p)) == p,
{
}

} // verus!
