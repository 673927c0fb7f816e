//! The water plane to mirror through: the height of the water the camera is looking at.
//!
//! The surfaces within reach are sounded first, each at the wet point nearest the eye. Those on
//! screen are ranked by how much of it they cover, and the best ranked height is the plane; where
//! nothing is on screen, it is the nearest water ahead, and water wholly behind the camera is none.

use vstd::prelude::*;

use crate::fixed::{law_fixed_is_strictly_ordered, saturated, Fixed, ONE};
use crate::frame::{Frame, Visible};
use crate::geometry::{bevy_to_wow, scene_of, world_of, wow_to_bevy, Vec2, Vec3};
use crate::prominence::{
    apart, counts, has_room, law_a_choice_stands, law_a_view_with_water_has_a_plane,
    law_ranking_keeps_heights_apart, law_ranking_keeps_the_heights, ranked, same_bucket, sticky_of,
    top_score, Prominence, Slot, PROMINENCE_SLOTS,
};
use crate::scalar::{clamp, clamped, int_of, ordered, strictly_ordered, whole_number, Scalar};

verus! {

/// How far from the eye a surface may be and still be the fallback plane, in yards.
pub open spec fn reflect_radius<S: Scalar>() -> S {
    int_of::<S>(120)
}

/// The share of the most prominent body's score a surface needs before it may lower the clip.
pub open spec fn clip_share<S: Scalar>() -> S {
    S::frac(10, 100)
}

/// The side of the lattice laid over a footprint whose near point is dry, in steps.
pub const LATTICE_STEPS: u32 = 4;

/// The points of that lattice.
pub const LATTICE_POINTS: usize = 25;

/// The box around a surface's wet cells, seen from above in the world's axes.
#[derive(Debug, PartialEq)]
pub struct Bounds<S> {
    pub min: Vec2<S>,
    pub max: Vec2<S>,
}

impl<S: Copy> Clone for Bounds<S> {
    fn clone(&self) -> (r: Self)
        ensures
            r == *self,
    {
        *self
    }
}

impl<S: Copy> Copy for Bounds<S> {

}

impl<S: Scalar> Bounds<S> {
    /// The corners are the right way round.
    pub open spec fn wf(self) -> bool {
        self.min.x <= self.max.x && self.min.y <= self.max.y
    }

    /// The point of the box nearest another.
    pub open spec fn nearest(self, p: Vec2<S>) -> Vec2<S> {
        Vec2 {
            x: clamped(p.x, self.min.x, self.max.x),
            y: clamped(p.y, self.min.y, self.max.y),
        }
    }

    /// Whether a point lies in the box.
    pub open spec fn holds(self, p: Vec2<S>) -> bool {
        &&& self.min.x <= p.x
        &&& p.x <= self.max.x
        &&& self.min.y <= p.y
        &&& p.y <= self.max.y
    }

    /// How much ground the box covers.
    pub open spec fn area(self) -> S {
        (self.max.x - self.min.x) * (self.max.y - self.min.y)
    }

    /// The `n`th point of the lattice laid over the box, column by column.
    pub open spec fn lattice_point(self, n: int) -> Vec2<S> {
        let steps = int_of::<S>(LATTICE_STEPS as int);
        Vec2 {
            x: self.min.x + (self.max.x - self.min.x) * int_of::<S>(n / 5) / steps,
            y: self.min.y + (self.max.y - self.min.y) * int_of::<S>(n % 5) / steps,
        }
    }

    /// The point of the box nearest another.
    pub fn clamp_point(self, p: Vec2<S>) -> (r: Vec2<S>)
        ensures
            r == self.nearest(p),
    {
        Vec2 {
            x: clamp(p.x, self.min.x, self.max.x),
            y: clamp(p.y, self.min.y, self.max.y),
        }
    }

    /// The `n`th point of the lattice laid over the box.
    fn lattice_at(self, n: usize) -> (r: Vec2<S>)
        requires
            n < LATTICE_POINTS,
        ensures
            r == self.lattice_point(n as int),
    {
        let steps: S = whole_number(LATTICE_STEPS as i64);
        let i: S = whole_number((n / 5) as i64);
        let j: S = whole_number((n % 5) as i64);
        Vec2 {
            x: self.min.x.plus(self.max.x.minus(self.min.x).times(i).over(steps)),
            y: self.min.y.plus(self.max.y.minus(self.min.y).times(j).over(steps)),
        }
    }
}

/// A wet point: the water's height there, how far off it is, squared, and where.
#[derive(Debug, PartialEq)]
pub struct Wet<S> {
    pub z: S,
    pub d2: S,
    pub at: Vec2<S>,
}

impl<S: Copy> Clone for Wet<S> {
    fn clone(&self) -> (r: Self)
        ensures
            r == *self,
    {
        *self
    }
}

impl<S: Copy> Copy for Wet<S> {

}

/// A wet point seen from another.
pub open spec fn wet_at<S: Scalar>(z: S, at: Vec2<S>, from: Vec2<S>) -> Wet<S> {
    Wet { z, d2: (at - from).square(), at }
}

/// The nearest wet point among the first `n` probes of a lattice; the first of those equally near.
pub open spec fn nearest_probe<S: Scalar>(
    b: Bounds<S>,
    p: Vec2<S>,
    probes: Seq<Option<S>>,
    n: int,
) -> Option<Wet<S>>
    decreases n,
{
    if n <= 0 {
        None
    } else {
        let before = nearest_probe(b, p, probes, n - 1);
        match probes[n - 1] {
            None => before,
            Some(z) => {
                let here = wet_at(z, b.lattice_point(n - 1), p);
                match before {
                    Some(w) if !(here.d2 < w.d2) => before,
                    _ => Some(here),
                }
            },
        }
    }
}

/// Whether `probes` are what a surface answers at the first `n` points of the lattice.
pub open spec fn probed<S: Scalar, F: Fn(usize, Vec2<S>) -> Option<S>>(
    surface_z: F,
    chunk: usize,
    b: Bounds<S>,
    probes: Seq<Option<S>>,
    n: int,
) -> bool {
    &&& probes.len() == n
    &&& forall|k: int|
        0 <= k < n ==> call_ensures(
            surface_z,
            (chunk, b.lattice_point(k)),
            #[trigger] probes[k],
        )
}

/// Whether `r` is a surface's answer to how high the water is near a point: where the nearest point
/// of its footprint is wet, that; where it is dry, the nearest wet point of a lattice over the
/// footprint, if the lattice is asked for.
pub open spec fn wet_near<S: Scalar, F: Fn(usize, Vec2<S>) -> Option<S>>(
    surface_z: F,
    chunk: usize,
    b: Bounds<S>,
    p: Vec2<S>,
    lattice: bool,
    r: Option<Wet<S>>,
) -> bool {
    ||| exists|z: S| #[trigger]
        call_ensures(surface_z, (chunk, b.nearest(p)), Some(z)) && r == Some(
            wet_at(z, b.nearest(p), p),
        )
    ||| {
        &&& call_ensures(surface_z, (chunk, b.nearest(p)), None)
        &&& if lattice {
            exists|probes: Seq<Option<S>>| #[trigger]
                probed(surface_z, chunk, b, probes, LATTICE_POINTS as int) && r == nearest_probe(
                    b,
                    p,
                    probes,
                    LATTICE_POINTS as int,
                )
        } else {
            r is None
        }
    }
}

/// A wet height on a surface near a point, and how far away it is. A footprint is a box around a
/// whole surface, and the point of it nearest the eye may be dry ground; then a short lattice over
/// it answers, for the surfaces near enough to be worth the probes.
///
/// `surface_z` answers the height of a surface's water at a point, where it is wet.
pub fn wet_height_near<S: Scalar, F: Fn(usize, Vec2<S>) -> Option<S>>(
    surface_z: &F,
    chunk: usize,
    b: Bounds<S>,
    p: Vec2<S>,
    lattice: bool,
) -> (r: Option<Wet<S>>)
    requires
        b.wf(),
        forall|k: usize, q: Vec2<S>| #[trigger] call_requires(*surface_z, (k, q)),
    ensures
        wet_near(*surface_z, chunk, b, p, lattice, r),
{
    let c: Vec2<S> = b.clamp_point(p);
    match surface_z(chunk, c) {
        Some(z) => {
            return Some(Wet { z, d2: c.minus(p).length_squared(), at: c });
        },
        None => {},
    }
    if !lattice {
        return None;
    }
    let mut best: Option<Wet<S>> = None;
    let ghost mut probes: Seq<Option<S>> = Seq::empty();
    let mut n: usize = 0;
    while n < LATTICE_POINTS
        invariant
            n <= LATTICE_POINTS,
            forall|k: usize, q: Vec2<S>| #[trigger] call_requires(*surface_z, (k, q)),
            probed(*surface_z, chunk, b, probes, n as int),
            best == nearest_probe(b, p, probes, n as int),
        decreases LATTICE_POINTS - n,
    {
        let q: Vec2<S> = b.lattice_at(n);
        let found: Option<S> = surface_z(chunk, q);
        proof {
            lemma_probes_before(b, p, probes, found, n as int);
            probes = probes.push(found);
        }
        match found {
            Some(z) => {
                let d2: S = q.minus(p).length_squared();
                let closer: bool = match &best {
                    Some(w) => d2.less(w.d2),
                    None => true,
                };
                if closer {
                    best = Some(Wet { z, d2, at: q });
                }
            },
            None => {},
        }
        n = n + 1;
    }
    best
}

/// A probe added at the end does not disturb the ones before it.
proof fn lemma_probes_before<S: Scalar>(
    b: Bounds<S>,
    p: Vec2<S>,
    probes: Seq<Option<S>>,
    next: Option<S>,
    n: int,
)
    requires
        n <= probes.len(),
    ensures
        nearest_probe(b, p, probes.push(next), n) == nearest_probe(b, p, probes, n),
    decreases n,
{
    if n > 0 {
        lemma_probes_before(b, p, probes, next, n - 1);
    }
}

/// What is known of a surface within reach: its wet point nearest the eye, whether it is near enough
/// to be the fallback plane, whether any of it is ahead, and how much ground its footprint covers.
#[derive(Debug, PartialEq)]
pub struct Sounding<S> {
    pub wet: Wet<S>,
    pub near: bool,
    pub ahead: bool,
    pub area: S,
}

impl<S: Copy> Clone for Sounding<S> {
    fn clone(&self) -> (r: Self)
        ensures
            r == *self,
    {
        *self
    }
}

impl<S: Copy> Copy for Sounding<S> {

}

/// The eye seen from above in the world's axes.
pub open spec fn over<S: Scalar>(eye: Vec3<S>) -> Vec2<S> {
    let w = world_of(eye);
    Vec2 { x: w.x, y: w.y }
}

/// How far along the view a point of the world is.
pub open spec fn depth_along<S: Scalar>(world: Vec3<S>, eye: Vec3<S>, forward: Vec3<S>) -> S {
    (scene_of(world) - eye).along(forward)
}

/// Whether any of a footprint with its water at height `z` is ahead: a corner of it has depth along
/// the view, or the eye stands over it.
pub open spec fn ahead<S: Scalar>(
    b: Bounds<S>,
    z: S,
    eye: Vec3<S>,
    forward: Vec3<S>,
) -> bool {
    let none = int_of::<S>(0);
    ||| b.holds(over(eye))
    ||| none < depth_along(Vec3 { x: b.min.x, y: b.min.y, z }, eye, forward)
    ||| none < depth_along(Vec3 { x: b.max.x, y: b.min.y, z }, eye, forward)
    ||| none < depth_along(Vec3 { x: b.min.x, y: b.max.y, z }, eye, forward)
    ||| none < depth_along(Vec3 { x: b.max.x, y: b.max.y, z }, eye, forward)
}

/// Whether a point of the world has depth along the view.
fn has_depth<S: Scalar>(world: Vec3<S>, eye: Vec3<S>, forward: Vec3<S>) -> (r: bool)
    ensures
        r == (int_of::<S>(0) < depth_along(world, eye, forward)),
{
    let none: S = whole_number(0);
    none.less(wow_to_bevy(world).minus(eye).dot(forward))
}

/// Whether any of a footprint with its water at height `z` is ahead.
pub fn is_ahead<S: Scalar>(b: Bounds<S>, z: S, eye: Vec3<S>, forward: Vec3<S>) -> (r: bool)
    ensures
        r == ahead(b, z, eye, forward),
{
    let w: Vec3<S> = bevy_to_wow(eye);
    (b.min.x.at_most(w.x) && w.x.at_most(b.max.x) && b.min.y.at_most(w.y) && w.y.at_most(b.max.y))
        || has_depth(Vec3 { x: b.min.x, y: b.min.y, z }, eye, forward)
        || has_depth(Vec3 { x: b.max.x, y: b.min.y, z }, eye, forward)
        || has_depth(Vec3 { x: b.min.x, y: b.max.y, z }, eye, forward)
        || has_depth(Vec3 { x: b.max.x, y: b.max.y, z }, eye, forward)
}

/// Whether `r` is what sounding a surface finds: nothing without a footprint, out of reach, or
/// where no wet point is found.
pub open spec fn sounded<S: Scalar, F: Fn(usize, Vec2<S>) -> Option<S>>(
    surface_z: F,
    chunk: usize,
    bounds: Option<Bounds<S>>,
    eye: Vec3<S>,
    forward: Vec3<S>,
    reach: S,
    r: Option<Sounding<S>>,
) -> bool {
    match bounds {
        None => r is None,
        Some(b) => {
            let p = over(eye);
            let foot = (b.nearest(p) - p).square();
            let near = foot <= reflect_radius::<S>() * reflect_radius::<S>();
            if reach * reach < foot {
                r is None
            } else {
                exists|w: Option<Wet<S>>| #[trigger]
                    wet_near(surface_z, chunk, b, p, near, w) && r == match w {
                        Some(wet) => Some(
                            Sounding {
                                wet,
                                near,
                                ahead: ahead(b, wet.z, eye, forward),
                                area: b.area(),
                            },
                        ),
                        None => None,
                    }
            }
        },
    }
}

/// Sound every surface within reach of an eye looking along `forward`. The footprints say where each
/// surface is, and `surface_z` answers the height of one's water at a point, where it is wet.
pub fn survey_surfaces<S: Scalar, F: Fn(usize, Vec2<S>) -> Option<S>>(
    surface_z: &F,
    footprints: &Vec<Option<Bounds<S>>>,
    eye: Vec3<S>,
    forward: Vec3<S>,
    reach: S,
) -> (r: Vec<Option<Sounding<S>>>)
    requires
        forall|k: int|
            0 <= k < footprints@.len() ==> (#[trigger] footprints@[k] matches Some(b) ==> b.wf()),
        forall|k: usize, q: Vec2<S>| #[trigger] call_requires(*surface_z, (k, q)),
    ensures
        r@.len() == footprints@.len(),
        forall|k: int|
            #![trigger r@[k]]
            0 <= k < r@.len() ==> sounded(
                *surface_z,
                k as usize,
                footprints@[k],
                eye,
                forward,
                reach,
                r@[k],
            ),
{
    let w: Vec3<S> = bevy_to_wow(eye);
    let p: Vec2<S> = Vec2 { x: w.x, y: w.y };
    let radius: S = whole_number(120);
    let mut r: Vec<Option<Sounding<S>>> = Vec::new();
    let mut k: usize = 0;
    while k < footprints.len()
        invariant
            k <= footprints@.len(),
            p == over(eye),
            radius == reflect_radius::<S>(),
            forall|j: int|
                0 <= j < footprints@.len() ==> (#[trigger] footprints@[j] matches Some(b)
                    ==> b.wf()),
            forall|j: usize, q: Vec2<S>| #[trigger] call_requires(*surface_z, (j, q)),
            r@.len() == k,
            forall|j: int|
                #![trigger r@[j]]
                0 <= j < k ==> sounded(
                    *surface_z,
                    j as usize,
                    footprints@[j],
                    eye,
                    forward,
                    reach,
                    r@[j],
                ),
        decreases footprints@.len() - k,
    {
        let found: Option<Sounding<S>> = match footprints[k] {
            None => None,
            Some(b) => {
                assert(footprints@[k as int] == Some(b));
                let foot: S = b.clamp_point(p).minus(p).length_squared();
                if reach.times(reach).less(foot) {
                    None
                } else {
                    let near: bool = foot.at_most(radius.times(radius));
                    let area: S = b.max.x.minus(b.min.x).times(b.max.y.minus(b.min.y));
                    match wet_height_near(surface_z, k, b, p, near) {
                        Some(wet) => {
                            let ahead: bool = is_ahead(b, wet.z, eye, forward);
                            Some(Sounding { wet, near, ahead, area })
                        },
                        None => None,
                    }
                }
            },
        };
        r.push(found);
        k = k + 1;
    }
    r
}

/// The heights ranked so far, and the nearest water ahead.
pub struct Ranking<S> {
    pub slots: Seq<Slot<S>>,
    pub nearest: Option<Wet<S>>,
}

/// The nearest of the water ahead so far and another surface, which counts only near the eye and
/// ahead of it; the one so far when they are equally near.
pub open spec fn nearer_plane<S: Scalar>(so_far: Option<Wet<S>>, s: Sounding<S>) -> Option<Wet<S>> {
    match so_far {
        Some(w) if !(s.wet.d2 < w.d2) => so_far,
        _ => if s.near && s.ahead {
            Some(s.wet)
        } else {
            so_far
        },
    }
}

/// How much screen a surface covers, if it is below the eye, in frame and within reach: the ground
/// it covers, shrunk by the square of its depth and faded at the frame's edge.
pub open spec fn screen_share<S: Scalar>(
    s: Sounding<S>,
    eye: Vec3<S>,
    frame: Frame<S>,
    reach: S,
) -> Option<S> {
    let point = scene_of(Vec3 { x: s.wet.at.x, y: s.wet.at.y, z: s.wet.z });
    if eye.y <= s.wet.z {
        None
    } else {
        match frame.sees(eye, point) {
            Some(v) => if reach < v.depth {
                None
            } else {
                Some(v.weight * s.area / (v.depth * v.depth))
            },
            None => None,
        }
    }
}

/// The ranking once the first `n` surfaces have been taken in.
pub open spec fn ranking<S: Scalar>(
    soundings: Seq<Option<Sounding<S>>>,
    eye: Vec3<S>,
    frame: Frame<S>,
    reach: S,
    n: int,
) -> Ranking<S>
    decreases n,
{
    if n <= 0 {
        Ranking { slots: Seq::empty(), nearest: None }
    } else {
        let before = ranking(soundings, eye, frame, reach, n - 1);
        match soundings[n - 1] {
            None => before,
            Some(s) => Ranking {
                slots: match screen_share(s, eye, frame, reach) {
                    Some(score) => ranked(before.slots, s.wet.z, score),
                    None => before.slots,
                },
                nearest: nearer_plane(before.nearest, s),
            },
        }
    }
}

/// Whether every surface among the first `n` that is on screen has somewhere to go when it is
/// ranked. Heights that can be told apart from one another always do.
pub open spec fn rankable<S: Scalar>(
    soundings: Seq<Option<Sounding<S>>>,
    eye: Vec3<S>,
    frame: Frame<S>,
    reach: S,
    n: int,
) -> bool
    decreases n,
{
    n <= 0 || {
        &&& rankable(soundings, eye, frame, reach, n - 1)
        &&& soundings[n - 1] matches Some(s) ==> (screen_share(s, eye, frame, reach) matches Some(
            score,
        ) ==> (counts(score) ==> has_room(
            ranking(soundings, eye, frame, reach, n - 1).slots,
            s.wet.z,
        )))
    }
}

/// The lowest of a plane and the heights among the first `n` that score at least `bar`.
pub open spec fn lowest_of<S: Scalar>(slots: Seq<Slot<S>>, plane: S, bar: S, n: int) -> S
    decreases n,
{
    if n <= 0 {
        plane
    } else if bar <= slots[n - 1].score {
        lowest_of(slots, plane, bar, n - 1).lesser(slots[n - 1].z)
    } else {
        lowest_of(slots, plane, bar, n - 1)
    }
}

/// A plane to mirror through, and the lowest water on screen with a real share of it.
#[derive(Debug, PartialEq)]
pub struct Plane<S> {
    pub plane: S,
    pub lowest: S,
}

/// The plane to mirror through, and the lowest water on screen.
pub open spec fn chosen<S: Scalar>(rank: Ranking<S>, held: Option<S>) -> Option<Plane<S>> {
    let bar = top_score(rank.slots, rank.slots.len() as int) * clip_share::<S>();
    let plane = match sticky_of(rank.slots, held) {
        Some(z) => Some(z),
        None => match rank.nearest {
            Some(w) => Some(w.z),
            None => None,
        },
    };
    match plane {
        Some(plane) => Some(
            Plane { plane, lowest: lowest_of(rank.slots, plane, bar, rank.slots.len() as int) },
        ),
        None => None,
    }
}

/// The plane to mirror through among the surfaces sounded.
pub open spec fn plane_of<S: Scalar>(
    soundings: Seq<Option<Sounding<S>>>,
    eye: Vec3<S>,
    frame: Frame<S>,
    reach: S,
    held: Option<S>,
) -> Option<Plane<S>> {
    chosen(ranking(soundings, eye, frame, reach, soundings.len() as int), held)
}

/// How much screen a surface covers, if any.
fn share_of_screen<S: Scalar>(
    s: &Sounding<S>,
    eye: Vec3<S>,
    frame: &Frame<S>,
    reach: S,
) -> (r: Option<S>)
    ensures
        r == screen_share(*s, eye, *frame, reach),
{
    if eye.y.at_most(s.wet.z) {
        return None;
    }
    let point: Vec3<S> = wow_to_bevy(Vec3 { x: s.wet.at.x, y: s.wet.at.y, z: s.wet.z });
    match frame.depth_if_visible(eye, point) {
        Some(v) => {
            let v: Visible<S> = v;
            if reach.less(v.depth) {
                None
            } else {
                Some(v.weight.times(s.area).over(v.depth.times(v.depth)))
            }
        },
        None => None,
    }
}

/// Whether every surface on screen has somewhere to go when it is ranked.
pub fn can_rank<S: Scalar>(
    soundings: &Vec<Option<Sounding<S>>>,
    eye: Vec3<S>,
    frame: &Frame<S>,
    reach: S,
) -> (r: bool)
    ensures
        r == rankable(soundings@, eye, *frame, reach, soundings@.len() as int),
{
    let mut seen: Prominence<S> = Prominence::new();
    let mut k: usize = 0;
    while k < soundings.len()
        invariant
            k <= soundings@.len(),
            seen.wf(),
            seen@ == ranking(soundings@, eye, *frame, reach, k as int).slots,
            rankable(soundings@, eye, *frame, reach, k as int),
        decreases soundings@.len() - k,
    {
        match &soundings[k] {
            Some(s) => {
                match share_of_screen(s, eye, frame, reach) {
                    Some(score) => {
                        let zero: S = whole_number(0);
                        if score.is_finite() && !score.at_most(zero) {
                            if !seen.fits(s.wet.z) {
                                proof {
                                    let n = soundings@.len() as int;
                                    if rankable(soundings@, eye, *frame, reach, n) {
                                        lemma_rankable_before(
                                            soundings@,
                                            eye,
                                            *frame,
                                            reach,
                                            k as int + 1,
                                            n,
                                        );
                                    }
                                }
                                return false;
                            }
                        }
                        seen.add(s.wet.z, score);
                    },
                    None => {},
                }
            },
            None => {},
        }
        k = k + 1;
    }
    true
}

/// What can be ranked whole can be ranked part of the way.
proof fn lemma_rankable_before<S: Scalar>(
    soundings: Seq<Option<Sounding<S>>>,
    eye: Vec3<S>,
    frame: Frame<S>,
    reach: S,
    k: int,
    n: int,
)
    requires
        k <= n,
        rankable(soundings, eye, frame, reach, n),
    ensures
        rankable(soundings, eye, frame, reach, k),
    decreases n - k,
{
    if k < n {
        lemma_rankable_before(soundings, eye, frame, reach, k, n - 1);
    }
}

/// The water plane to mirror through: of the surfaces sounded, the height covering the most screen,
/// with the plane already `held` given right of first refusal, and failing that the nearest water
/// ahead. With it comes the lowest water on screen that has a real share of it.
pub fn plane_near<S: Scalar>(
    soundings: &Vec<Option<Sounding<S>>>,
    eye: Vec3<S>,
    frame: &Frame<S>,
    reach: S,
    held: Option<S>,
) -> (r: Option<Plane<S>>)
    requires
        rankable(soundings@, eye, *frame, reach, soundings@.len() as int),
    ensures
        r == plane_of(soundings@, eye, *frame, reach, held),
{
    let mut seen: Prominence<S> = Prominence::new();
    let mut nearest: Option<Wet<S>> = None;
    let mut k: usize = 0;
    while k < soundings.len()
        invariant
            k <= soundings@.len(),
            rankable(soundings@, eye, *frame, reach, soundings@.len() as int),
            seen.wf(),
            seen@ == ranking(soundings@, eye, *frame, reach, k as int).slots,
            nearest == ranking(soundings@, eye, *frame, reach, k as int).nearest,
        decreases soundings@.len() - k,
    {
        proof {
            lemma_rankable_before(
                soundings@,
                eye,
                *frame,
                reach,
                k as int + 1,
                soundings@.len() as int,
            );
        }
        match &soundings[k] {
            Some(s) => {
                let closer: bool = match &nearest {
                    Some(w) => s.wet.d2.less(w.d2),
                    None => true,
                };
                if s.near && s.ahead && closer {
                    nearest = Some(s.wet);
                }
                match share_of_screen(s, eye, frame, reach) {
                    Some(score) => {
                        seen.add(s.wet.z, score);
                    },
                    None => {},
                }
            },
            None => {},
        }
        k = k + 1;
    }
    let plane: S = match seen.best_sticky(held) {
        Some(z) => z,
        None => match &nearest {
            Some(w) => w.z,
            None => {
                return None;
            },
        },
    };
    let share: S = S::ratio(10, 100);
    let bar: S = seen.top().times(share);
    let mut lowest: S = plane;
    let mut i: usize = 0;
    while i < seen.used()
        invariant
            seen.wf(),
            i <= seen@.len(),
            lowest == lowest_of(seen@, plane, bar, i as int),
        decreases seen@.len() - i,
    {
        let slot: Slot<S> = seen.slot(i);
        if bar.at_most(slot.score) {
            lowest = lowest.least(slot.z);
        }
        i = i + 1;
    }
    Some(Plane { plane, lowest })
}

/// However many surfaces there are, no more heights are ranked than there are slots.
pub proof fn law_a_view_is_bounded<S: Scalar>(
    soundings: Seq<Option<Sounding<S>>>,
    eye: Vec3<S>,
    frame: Frame<S>,
    reach: S,
    n: int,
)
    requires
        rankable(soundings, eye, frame, reach, n),
    ensures
        ranking(soundings, eye, frame, reach, n).slots.len() <= PROMINENCE_SLOTS,
    decreases n,
{
    if n > 0 {
        law_a_view_is_bounded(soundings, eye, frame, reach, n - 1);
        if let Some(s) = soundings[n - 1] {
            if let Some(score) = screen_share(s, eye, frame, reach) {
                law_ranking_keeps_the_heights(
                    ranking(soundings, eye, frame, reach, n - 1).slots,
                    s.wet.z,
                    score,
                );
            }
        }
    }
}

/// Whether a height is that of one of the first `n` surfaces sounded.
pub open spec fn sounded_height<S: Scalar>(
    soundings: Seq<Option<Sounding<S>>>,
    n: int,
    z: S,
) -> bool {
    exists|k: int|
        0 <= k < n && (#[trigger] soundings[k] matches Some(s) && s.wet.z == z)
}

proof fn lemma_heights_are_sounded<S: Scalar>(
    soundings: Seq<Option<Sounding<S>>>,
    eye: Vec3<S>,
    frame: Frame<S>,
    reach: S,
    n: int,
)
    requires
        rankable(soundings, eye, frame, reach, n),
    ensures
        forall|i: int|
            0 <= i < ranking(soundings, eye, frame, reach, n).slots.len() ==> sounded_height(
                soundings,
                n,
                (#[trigger] ranking(soundings, eye, frame, reach, n).slots[i]).z,
            ),
        ranking(soundings, eye, frame, reach, n).nearest matches Some(w) ==> sounded_height(
            soundings,
            n,
            w.z,
        ),
    decreases n,
{
    if n > 0 {
        lemma_heights_are_sounded(soundings, eye, frame, reach, n - 1);
        law_a_view_is_bounded(soundings, eye, frame, reach, n - 1);
        let before = ranking(soundings, eye, frame, reach, n - 1);
        let after = ranking(soundings, eye, frame, reach, n);
        assert forall|z: S| sounded_height(soundings, n - 1, z) implies #[trigger] sounded_height(
            soundings,
            n,
            z,
        ) by {
            let k = choose|k: int|
                0 <= k < n - 1 && (#[trigger] soundings[k] matches Some(s) && s.wet.z == z);
            assert(soundings[k] matches Some(s) && s.wet.z == z);
        }
        if let Some(s) = soundings[n - 1] {
            assert(soundings[n - 1] matches Some(t) && t.wet.z == s.wet.z);
            assert(sounded_height(soundings, n, s.wet.z));
            if let Some(score) = screen_share(s, eye, frame, reach) {
                law_ranking_keeps_the_heights(before.slots, s.wet.z, score);
            }
        }
        assert forall|i: int| 0 <= i < after.slots.len() implies sounded_height(
            soundings,
            n,
            (#[trigger] after.slots[i]).z,
        ) by {
            if i < before.slots.len() {
                assert(after.slots[i].z == before.slots[i].z);
                assert(sounded_height(soundings, n - 1, before.slots[i].z));
            } else {
                let s = soundings[n - 1]->0;
                let score = screen_share(s, eye, frame, reach)->0;
                assert(after.slots == before.slots.push(Slot { z: s.wet.z, score }));
                assert(after.slots[i].z == s.wet.z);
            }
        }
    }
}

/// The plane is the height of water that is there: of one of the surfaces sounded.
pub proof fn law_the_plane_is_a_waters_height<S: Scalar>(
    soundings: Seq<Option<Sounding<S>>>,
    eye: Vec3<S>,
    frame: Frame<S>,
    reach: S,
    held: Option<S>,
)
    requires
        rankable(soundings, eye, frame, reach, soundings.len() as int),
    ensures
        plane_of(soundings, eye, frame, reach, held) matches Some(p) ==> sounded_height(
            soundings,
            soundings.len() as int,
            p.plane,
        ),
{
    let rank = ranking(soundings, eye, frame, reach, soundings.len() as int);
    lemma_heights_are_sounded(soundings, eye, frame, reach, soundings.len() as int);
    law_a_view_with_water_has_a_plane(rank.slots, held);
    if let Some(z) = sticky_of(rank.slots, held) {
        let i = choose|i: int| 0 <= i < rank.slots.len() && (#[trigger] rank.slots[i]).z == z;
        assert(sounded_height(soundings, soundings.len() as int, rank.slots[i].z));
    }
}

/// Whether a surface sounded can be the fallback plane.
pub open spec fn falls_back<S: Scalar>(sounding: Option<Sounding<S>>) -> bool {
    sounding matches Some(s) && s.near && s.ahead
}

/// The fallback plane is the nearest water ahead: there is one as soon as some surface is near and
/// ahead, it is that of such a surface, and no other such surface is nearer.
pub proof fn law_the_fallback_is_the_nearest_ahead<S: Scalar>(
    soundings: Seq<Option<Sounding<S>>>,
    eye: Vec3<S>,
    frame: Frame<S>,
    reach: S,
    n: int,
)
    requires
        strictly_ordered::<S>(),
        0 <= n <= soundings.len(),
    ensures
        ranking(soundings, eye, frame, reach, n).nearest is None <==> forall|k: int|
            0 <= k < n ==> !falls_back(#[trigger] soundings[k]),
        ranking(soundings, eye, frame, reach, n).nearest matches Some(w) ==> {
            &&& exists|k: int|
                0 <= k < n && falls_back(#[trigger] soundings[k]) && soundings[k]->Some_0.wet == w
            &&& forall|k: int|
                0 <= k < n && falls_back(#[trigger] soundings[k]) ==> !(soundings[k]->Some_0.wet.d2
                    < w.d2)
        },
    decreases n,
{
    if n > 0 {
        law_the_fallback_is_the_nearest_ahead(soundings, eye, frame, reach, n - 1);
        let before = ranking(soundings, eye, frame, reach, n - 1).nearest;
        let after = ranking(soundings, eye, frame, reach, n).nearest;
        if let Some(w) = before {
            let k = choose|k: int|
                0 <= k < n - 1 && falls_back(#[trigger] soundings[k]) && soundings[k]->Some_0.wet
                    == w;
            assert(falls_back(soundings[k]));
        }
        if after != before {
            assert(falls_back(soundings[n - 1]));
        }
    }
}

/// Where nothing sounded is on screen, and no surface near the eye is ahead, there is no plane: a
/// camera with its back to the water mirrors nothing.
pub proof fn law_nothing_ahead_is_no_plane<S: Scalar>(
    soundings: Seq<Option<Sounding<S>>>,
    eye: Vec3<S>,
    frame: Frame<S>,
    reach: S,
    held: Option<S>,
)
    requires
        forall|k: int|
            0 <= k < soundings.len() ==> (#[trigger] soundings[k] matches Some(s) ==> !(s.near
                && s.ahead) && (screen_share(s, eye, frame, reach) matches Some(score) ==> !counts(
                score,
            ))),
    ensures
        plane_of(soundings, eye, frame, reach, held) is None,
{
    lemma_nothing_ahead(soundings, eye, frame, reach, soundings.len() as int);
}

proof fn lemma_nothing_ahead<S: Scalar>(
    soundings: Seq<Option<Sounding<S>>>,
    eye: Vec3<S>,
    frame: Frame<S>,
    reach: S,
    n: int,
)
    requires
        n <= soundings.len(),
        forall|k: int|
            0 <= k < n ==> (#[trigger] soundings[k] matches Some(s) ==> !(s.near && s.ahead) && (
            screen_share(s, eye, frame, reach) matches Some(score) ==> !counts(score))),
    ensures
        ranking(soundings, eye, frame, reach, n).slots.len() == 0,
        ranking(soundings, eye, frame, reach, n).nearest is None,
    decreases n,
{
    if n > 0 {
        lemma_nothing_ahead(soundings, eye, frame, reach, n - 1);
        assert(soundings[n - 1] matches Some(s) ==> !(s.near && s.ahead));
    }
}

/// Water wholly behind the camera is no plane: where nothing surveyed is on screen, and the
/// footprint of every surface near the eye is behind it, there is none.
pub proof fn law_water_behind_is_no_plane<S: Scalar, F: Fn(usize, Vec2<S>) -> Option<S>>(
    surface_z: F,
    footprints: Seq<Option<Bounds<S>>>,
    eye: Vec3<S>,
    forward: Vec3<S>,
    frame: Frame<S>,
    reach: S,
    soundings: Seq<Option<Sounding<S>>>,
    held: Option<S>,
)
    requires
        soundings.len() == footprints.len(),
        forall|k: int|
            #![trigger soundings[k]]
            0 <= k < soundings.len() ==> sounded(
                surface_z,
                k as usize,
                footprints[k],
                eye,
                forward,
                reach,
                soundings[k],
            ),
        forall|k: int|
            0 <= k < soundings.len() ==> (#[trigger] soundings[k] matches Some(s) ==> {
                &&& s.near ==> !ahead(footprints[k]->Some_0, s.wet.z, eye, forward)
                &&& screen_share(s, eye, frame, reach) matches Some(score) ==> !counts(score)
            }),
    ensures
        plane_of(soundings, eye, frame, reach, held) is None,
{
    assert forall|k: int| 0 <= k < soundings.len() implies (#[trigger] soundings[k] matches Some(s)
        ==> !(s.near && s.ahead)) by {
        assert(sounded(
            surface_z,
            k as usize,
            footprints[k],
            eye,
            forward,
            reach,
            soundings[k],
        ));
    }
    law_nothing_ahead_is_no_plane(soundings, eye, frame, reach, held);
}

/// The lowest water on screen is no higher than the plane.
pub proof fn law_the_lowest_is_no_higher(rank: Ranking<Fixed>, held: Option<Fixed>)
    ensures
        chosen(rank, held) matches Some(p) ==> p.lowest <= p.plane,
{
    if let Some(p) = chosen(rank, held) {
        let bar = top_score(rank.slots, rank.slots.len() as int) * clip_share::<Fixed>();
        lemma_lowest(rank.slots, p.plane, bar, rank.slots.len() as int);
    }
}

proof fn lemma_lowest(slots: Seq<Slot<Fixed>>, plane: Fixed, bar: Fixed, n: int)
    ensures
        lowest_of(slots, plane, bar, n) <= plane,
    decreases n,
{
    if n > 0 {
        lemma_lowest(slots, plane, bar, n - 1);
    }
}

/// Whether `w` is the wet point of one of the first `n` probes of a lattice, and none of the others
/// is nearer.
pub open spec fn least_probe<S: Scalar>(
    b: Bounds<S>,
    p: Vec2<S>,
    probes: Seq<Option<S>>,
    n: int,
    w: Wet<S>,
) -> bool {
    &&& exists|k: int|
        0 <= k < n && #[trigger] probes[k] == Some(w.z) && w == wet_at(w.z, b.lattice_point(k), p)
    &&& forall|k: int|
        0 <= k < n && #[trigger] probes[k] is Some ==> !((b.lattice_point(k) - p).square() < w.d2)
}

/// A lattice answers as soon as one of its points is wet, with one of them, and no wet one is
/// nearer.
pub proof fn law_no_wet_probe_is_nearer<S: Scalar>(
    b: Bounds<S>,
    p: Vec2<S>,
    probes: Seq<Option<S>>,
    n: int,
)
    requires
        strictly_ordered::<S>(),
        0 <= n,
    ensures
        nearest_probe(b, p, probes, n) is None <==> forall|k: int|
            0 <= k < n ==> #[trigger] probes[k] is None,
        nearest_probe(b, p, probes, n) matches Some(w) ==> least_probe(b, p, probes, n, w),
    decreases n,
{
    if n > 0 {
        law_no_wet_probe_is_nearer(b, p, probes, n - 1);
        let last = probes[n - 1];
        if let Some(w) = nearest_probe(b, p, probes, n) {
            if nearest_probe(b, p, probes, n - 1) == Some(w) {
                let k = choose|k: int|
                    0 <= k < n - 1 && #[trigger] probes[k] == Some(w.z) && w == wet_at(
                        w.z,
                        b.lattice_point(k),
                        p,
                    );
                assert(probes[k] == Some(w.z));
            } else {
                assert(probes[n - 1] == Some(w.z));
            }
        }
        if nearest_probe(b, p, probes, n - 1) is Some {
            let v = nearest_probe(b, p, probes, n - 1)->0;
            let k = choose|k: int|
                0 <= k < n - 1 && #[trigger] probes[k] == Some(v.z) && v == wet_at(
                    v.z,
                    b.lattice_point(k),
                    p,
                );
            assert(probes[k] is Some);
        }
    }
}

/// A share of the way from one end of a side to the other lies between them.
proof fn lemma_side_of_lattice(lo: Fixed, hi: Fixed, i: int)
    requires
        lo <= hi,
        0 <= i <= LATTICE_STEPS,
    ensures
        ({
            let v = lo + (hi - lo) * int_of::<Fixed>(i) / int_of::<Fixed>(LATTICE_STEPS as int);
            lo <= v && v <= hi
        }),
{
    let d = hi - lo;
    let m = d * int_of::<Fixed>(i);
    assert(int_of::<Fixed>(i).raw == i * ONE);
    assert(d.raw * (i * ONE) == (d.raw * i) * ONE) by (nonlinear_arith);
    vstd::arithmetic::div_mod::lemma_div_by_multiple(d.raw * i, ONE as int);
    assert(m == saturated(d.raw * i));
    assert(0 <= d.raw * i <= 4 * d.raw) by (nonlinear_arith)
        requires
            0 <= d.raw,
            0 <= i <= 4,
    ;
    assert(int_of::<Fixed>(4).raw == 4 * ONE);
    let q = m / int_of::<Fixed>(4);
    assert(q == saturated((m.raw * ONE) / (4 * ONE)));
    assert((m.raw * 0x1_0000_0000) / 0x4_0000_0000 == m.raw as int / 4);
    assert(0 <= q.raw <= d.raw);
}

/// Every point of the lattice laid over a box lies in the box, and so does the point of it nearest
/// another.
pub proof fn law_a_footprint_is_probed_inside(b: Bounds<Fixed>, p: Vec2<Fixed>, n: int)
    requires
        b.wf(),
        0 <= n < LATTICE_POINTS,
    ensures
        b.holds(b.lattice_point(n)),
        b.holds(b.nearest(p)),
{
    lemma_side_of_lattice(b.min.x, b.max.x, n / 5);
    lemma_side_of_lattice(b.min.y, b.max.y, n % 5);
}

/// A surface's answer is water that is there: the height it has at the point given, as far off as is
/// said. It is at the footprint's point nearest the eye where that is wet; elsewhere it is only
/// given where the lattice is asked for, and is that of a wet probe than which none is nearer.
pub proof fn law_the_answer_is_water_near<S: Scalar, F: Fn(usize, Vec2<S>) -> Option<S>>(
    surface_z: F,
    chunk: usize,
    b: Bounds<S>,
    p: Vec2<S>,
    lattice: bool,
    r: Option<Wet<S>>,
)
    requires
        strictly_ordered::<S>(),
        wet_near(surface_z, chunk, b, p, lattice, r),
    ensures
        r matches Some(w) ==> {
            &&& call_ensures(surface_z, (chunk, w.at), Some(w.z))
            &&& w.d2 == (w.at - p).square()
            &&& w.at == b.nearest(p) || lattice && call_ensures(
                surface_z,
                (chunk, b.nearest(p)),
                None,
            ) && exists|probes: Seq<Option<S>>| #[trigger]
                probed(surface_z, chunk, b, probes, LATTICE_POINTS as int) && least_probe(
                    b,
                    p,
                    probes,
                    LATTICE_POINTS as int,
                    w,
                )
        },
        r is None ==> {
            &&& call_ensures(surface_z, (chunk, b.nearest(p)), None)
            &&& lattice ==> exists|probes: Seq<Option<S>>| #[trigger]
                probed(surface_z, chunk, b, probes, LATTICE_POINTS as int) && forall|k: int|
                    0 <= k < LATTICE_POINTS ==> #[trigger] probes[k] is None
        },
{
    let n = LATTICE_POINTS as int;
    if call_ensures(surface_z, (chunk, b.nearest(p)), None) && lattice && exists|
        probes: Seq<Option<S>>,
    | #[trigger] probed(surface_z, chunk, b, probes, n) && r == nearest_probe(b, p, probes, n) {
        let probes = choose|probes: Seq<Option<S>>| #[trigger]
            probed(surface_z, chunk, b, probes, n) && r == nearest_probe(b, p, probes, n);
        law_no_wet_probe_is_nearer(b, p, probes, n);
        if let Some(w) = r {
            let k = choose|k: int|
                0 <= k < n && #[trigger] probes[k] == Some(w.z) && w == wet_at(
                    w.z,
                    b.lattice_point(k),
                    p,
                );
            assert(call_ensures(surface_z, (chunk, b.lattice_point(k)), probes[k]));
        }
    }
}

/// A surface's answer lies in its footprint.
pub proof fn law_the_answer_lies_in_the_footprint<F: Fn(usize, Vec2<Fixed>) -> Option<Fixed>>(
    surface_z: F,
    chunk: usize,
    b: Bounds<Fixed>,
    p: Vec2<Fixed>,
    lattice: bool,
    r: Option<Wet<Fixed>>,
)
    requires
        b.wf(),
        wet_near(surface_z, chunk, b, p, lattice, r),
    ensures
        r matches Some(w) ==> b.holds(w.at),
{
    law_fixed_is_strictly_ordered();
    law_the_answer_is_water_near(surface_z, chunk, b, p, lattice, r);
    law_a_footprint_is_probed_inside(b, p, 0);
    if let Some(w) = r {
        if w.at != b.nearest(p) {
            let n = LATTICE_POINTS as int;
            let probes = choose|probes: Seq<Option<Fixed>>| #[trigger]
                probed(surface_z, chunk, b, probes, n) && least_probe(b, p, probes, n, w);
            let k = choose|k: int|
                0 <= k < n && #[trigger] probes[k] == Some(w.z) && w == wet_at(
                    w.z,
                    b.lattice_point(k),
                    p,
                );
            law_a_footprint_is_probed_inside(b, p, k);
        }
    }
}

/// The heights ranked in a view are in different buckets.
pub proof fn law_heights_in_view_are_apart<S: Scalar>(
    soundings: Seq<Option<Sounding<S>>>,
    eye: Vec3<S>,
    frame: Frame<S>,
    reach: S,
    n: int,
)
    requires
        ordered::<S>(),
        rankable(soundings, eye, frame, reach, n),
    ensures
        apart(ranking(soundings, eye, frame, reach, n).slots),
    decreases n,
{
    if n > 0 {
        law_heights_in_view_are_apart(soundings, eye, frame, reach, n - 1);
        law_a_view_is_bounded(soundings, eye, frame, reach, n - 1);
        if let Some(s) = soundings[n - 1] {
            if let Some(score) = screen_share(s, eye, frame, reach) {
                law_ranking_keeps_heights_apart(
                    ranking(soundings, eye, frame, reach, n - 1).slots,
                    s.wet.z,
                    score,
                );
            }
        }
    }
}

/// A plane stands: while the view is as it is, choosing again with the chosen plane in use gives
/// that plane, and the same lowest water with it.
pub proof fn law_a_plane_stands<S: Scalar>(
    soundings: Seq<Option<Sounding<S>>>,
    eye: Vec3<S>,
    frame: Frame<S>,
    reach: S,
    held: Option<S>,
)
    requires
        ordered::<S>(),
        rankable(soundings, eye, frame, reach, soundings.len() as int),
        forall|k: int|
            0 <= k < soundings.len() ==> (#[trigger] soundings[k] matches Some(s) ==> same_bucket(
                s.wet.z,
                s.wet.z,
            )),
    ensures
        plane_of(soundings, eye, frame, reach, held) matches Some(p) ==> plane_of(
            soundings,
            eye,
            frame,
            reach,
            Some(p.plane),
        ) == Some(p),
{
    let n = soundings.len() as int;
    let slots = ranking(soundings, eye, frame, reach, n).slots;
    law_heights_in_view_are_apart(soundings, eye, frame, reach, n);
    lemma_heights_are_sounded(soundings, eye, frame, reach, n);
    assert forall|i: int| 0 <= i < slots.len() implies same_bucket(
        (#[trigger] slots[i]).z,
        slots[i].z,
    ) by {
        assert(sounded_height(soundings, n, slots[i].z));
        let k = choose|k: int|
            0 <= k < n && (#[trigger] soundings[k] matches Some(s) && s.wet.z == slots[i].z);
        assert(soundings[k] is Some);
    }
    law_a_choice_stands(slots, held);
    law_a_view_with_water_has_a_plane(slots, held);
    if let Some(p) = plane_of(soundings, eye, frame, reach, held) {
        law_a_view_with_water_has_a_plane(slots, Some(p.plane));
    }
}

} // verus!
