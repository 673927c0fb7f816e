//! The planar reflection: a second camera, mirrored through the water plane.
//!
//! The mirrored view is drawn only while the stylised look is on, water is near and the eye is above
//! it. What is decided here is whether it draws, through which plane, from where and how far, and the
//! parameters the water shader reads.

use vstd::prelude::*;

use crate::fixed::{Fixed, ONE};
use crate::frame::Frame;
use crate::geometry::{Vec3, Vec4};
use crate::plane::{plane_near, plane_of, rankable, reflect_radius, Plane, Sounding};
use crate::scalar::{clamp, clamped, flag, int_of, raise, whole_number, Scalar};
use crate::style::WaterStyle;

verus! {

/// The render layer liquid surfaces ride, which the mirrored camera does not render.
pub const WATER_RENDER_LAYER: usize = 31;

/// The render layer of what must never appear in the mirror.
pub const UNMIRRORED_RENDER_LAYER: usize = 30;

/// The shortest side a picture of the view may have.
pub const SMALLEST_SIDE: u32 = 64;

/// The layers the world camera renders: the world, the labels over it, and the water.
pub fn world_camera_layers() -> (r: Vec<usize>)
    ensures
        r@ == seq![0usize, UNMIRRORED_RENDER_LAYER, WATER_RENDER_LAYER],
{
    let mut r: Vec<usize> = Vec::new();
    r.push(0);
    r.push(UNMIRRORED_RENDER_LAYER);
    r.push(WATER_RENDER_LAYER);
    assert(r@ =~= seq![0usize, UNMIRRORED_RENDER_LAYER, WATER_RENDER_LAYER]);
    r
}

/// How far the mirror itself reaches, in yards, unless told otherwise.
pub open spec fn mirror_far_yards<S: Scalar>() -> S {
    int_of::<S>(500)
}

/// How far below the water the mirror's clip plane sits, in yards.
pub open spec fn waterline_clip_bias<S: Scalar>() -> S {
    S::frac(25, 100)
}

/// How far the surface normal displaces the reflection.
pub open spec fn reflect_distort<S: Scalar>() -> S {
    S::frac(55, 1000)
}

/// How far from the plane a surface is still served at full strength, in yards.
pub open spec fn plane_tolerance<S: Scalar>() -> S {
    int_of::<S>(10)
}

/// How far the look test reaches on a view of some distance.
pub open spec fn reach_of_view<S: Scalar>(farclip: S) -> S {
    farclip.greater(reflect_radius::<S>())
}

/// How far the look test reaches: the player's own view distance, and at least as far as the water
/// beside them.
pub fn look_reach<S: Scalar>(farclip: S) -> (r: S)
    ensures
        r == reach_of_view(farclip),
{
    let radius: S = whole_number(120);
    farclip.greatest(radius)
}

/// How far the mirror reaches where a distance was asked for, or none was.
pub open spec fn far_asked<S: Scalar>(asked: Option<S>) -> S {
    match asked {
        Some(far) if int_of::<S>(0) < far => far,
        _ => mirror_far_yards::<S>(),
    }
}

/// How far the mirror reaches: what was asked for, where that is a distance at all, and five hundred
/// yards otherwise.
pub fn mirror_far<S: Scalar>(asked: Option<S>) -> (r: S)
    ensures
        r == far_asked(asked),
{
    let zero: S = whole_number(0);
    match asked {
        Some(far) => if zero.less(far) {
            far
        } else {
            whole_number(500)
        },
        None => whole_number(500),
    }
}

/// By how much the mirror's picture is smaller where so much was asked for, or nothing was.
pub open spec fn downscale_asked(asked: Option<u32>) -> u32 {
    match asked {
        Some(n) => if n < 1 {
            1
        } else if n > 8 {
            8
        } else {
            n
        },
        None => 2,
    }
}

/// By how much the mirror's picture is smaller than the main view, per side: what was asked for,
/// held to a sane range, and two otherwise.
pub fn reflect_downscale(asked: Option<u32>) -> (r: u32)
    ensures
        r == downscale_asked(asked),
{
    match asked {
        Some(n) => if n < 1 {
            1
        } else if n > 8 {
            8
        } else {
            n
        },
        None => 2,
    }
}

/// How far the mirror's clip may be dropped where so much was asked for, or nothing was.
pub open spec fn drop_asked<S: Scalar>(asked: Option<S>) -> S {
    match asked {
        Some(drop) => drop,
        None => int_of::<S>(0),
    }
}

/// How far the mirror's clip may be dropped below the plane: what was asked for, and not at all
/// otherwise.
pub fn clip_drop<S: Scalar>(asked: Option<S>) -> (r: S)
    ensures
        r == drop_asked(asked),
{
    match asked {
        Some(drop) => drop,
        None => whole_number(0),
    }
}

/// A side as a picture must have it: never nothing.
pub open spec fn at_least_one(n: u32) -> u32 {
    if n < 1 {
        1
    } else {
        n
    }
}

/// A side as a picture must have it: never nothing.
pub fn picture_side(n: u32) -> (r: u32)
    ensures
        r == at_least_one(n),
{
    if n < 1 {
        1
    } else {
        n
    }
}

/// How many times as wide as it is tall a view is; sixteen to nine while that is not known.
pub open spec fn aspect<S: Scalar>(target: Option<(u32, u32)>) -> S {
    match target {
        Some((w, h)) => int_of::<S>(w as int) / int_of::<S>(at_least_one(h) as int),
        None => int_of::<S>(16) / int_of::<S>(9),
    }
}

/// How many times as wide as it is tall a view is.
pub fn aspect_of<S: Scalar>(target: Option<(u32, u32)>) -> (r: S)
    ensures
        r == aspect::<S>(target),
{
    match target {
        Some((w, h)) => {
            let w: S = whole_number(w as i64);
            w.over(whole_number(picture_side(h) as i64))
        },
        None => {
            let w: S = whole_number(16);
            w.over(whole_number(9))
        },
    }
}

/// What the sky tells the water.
pub struct Sky<S> {
    pub to_sun: Vec3<S>,
    pub sun_visible: S,
    pub to_moon: Vec3<S>,
    pub moon_visible: S,
    pub zenith: Vec3<S>,
    pub horizon: Vec3<S>,
    /// Whether the scene behind the water is to be painted instead of the water.
    pub show_scene: bool,
    /// Whether the water's depth is to be painted instead of the water.
    pub show_depth: bool,
    /// Whether the surface's tilt is to be painted instead of the water.
    pub show_tilt: bool,
}

/// The parameters the water shader reads each frame.
pub struct WaterReflectData<S> {
    /// The plane's height, the reflection's strength, its distortion, and the plane's tolerance.
    pub mirror: Vec4<S>,
    /// The direction to the sun, and how much of it can be seen.
    pub sun: Vec4<S>,
    /// The sky's colour overhead.
    pub zenith: Vec4<S>,
    /// The sky's colour at the horizon.
    pub horizon: Vec4<S>,
    /// The wave simulation's window.
    pub wake: Vec4<S>,
    /// The direction to the moon, and how much of it can be seen.
    pub moon: Vec4<S>,
}

/// A direction or a colour with a fourth number beside it.
pub open spec fn beside<S: Scalar>(v: Vec3<S>, w: S) -> Vec4<S> {
    Vec4 { x: v.x, y: v.y, z: v.z, w }
}

/// The direction to the sun, of length one or nothing at all, and how much of it can be seen.
pub open spec fn sun_lanes<S: Scalar>(sky: Sky<S>) -> Vec4<S> {
    beside(sky.to_sun.unit(), sky.sun_visible)
}

/// The direction to the moon, of length one or nothing at all, and how much of it can be seen. Twice
/// all of it stands for painting the scene behind the water.
pub open spec fn moon_lanes<S: Scalar>(sky: Sky<S>) -> Vec4<S> {
    beside(
        sky.to_moon.unit(),
        if sky.show_scene {
            int_of::<S>(2)
        } else {
            sky.moon_visible
        },
    )
}

/// Four numbers in a row.
pub open spec fn four<S: Scalar>(v: Vec4<S>) -> Seq<S> {
    seq![v.x, v.y, v.z, v.w]
}

impl<S: Scalar> WaterReflectData<S> {
    /// The parameters as the shader's buffer holds them.
    pub open spec fn lanes(&self) -> Seq<S> {
        four(self.mirror) + four(self.sun) + four(self.zenith) + four(self.horizon) + four(
            self.wake,
        ) + four(self.moon)
    }

    /// Everything at nothing.
    pub fn new() -> (r: Self)
        ensures
            r.mirror == Vec4::all(int_of::<S>(0)),
            r.sun == Vec4::all(int_of::<S>(0)),
            r.zenith == Vec4::all(int_of::<S>(0)),
            r.horizon == Vec4::all(int_of::<S>(0)),
            r.wake == Vec4::all(int_of::<S>(0)),
            r.moon == Vec4::all(int_of::<S>(0)),
    {
        let zero: Vec4<S> = Vec4::splat(whole_number(0));
        WaterReflectData {
            mirror: zero,
            sun: zero,
            zenith: zero,
            horizon: zero,
            wake: zero,
            moon: zero,
        }
    }

    /// Take in the sky. These are not the mirror's: they are written on every frame, whether or not
    /// the mirror draws.
    pub fn take_sky(&mut self, sky: &Sky<S>)
        ensures
            final(self).sun == sun_lanes(*sky),
            final(self).moon == moon_lanes(*sky),
            final(self).zenith == beside(sky.zenith, flag(sky.show_depth)),
            final(self).horizon == beside(sky.horizon, flag(sky.show_tilt)),
            final(self).mirror == old(self).mirror,
            final(self).wake == old(self).wake,
    {
        let sun: Vec3<S> = sky.to_sun.normalize_or_zero();
        let moon: Vec3<S> = sky.to_moon.normalize_or_zero();
        let moon_w: S = if sky.show_scene {
            whole_number(2)
        } else {
            sky.moon_visible
        };
        self.sun = Vec4 { x: sun.x, y: sun.y, z: sun.z, w: sky.sun_visible };
        self.moon = Vec4 { x: moon.x, y: moon.y, z: moon.z, w: moon_w };
        self.zenith = Vec4 {
            x: sky.zenith.x,
            y: sky.zenith.y,
            z: sky.zenith.z,
            w: raise(sky.show_depth),
        };
        self.horizon = Vec4 {
            x: sky.horizon.x,
            y: sky.horizon.y,
            z: sky.horizon.z,
            w: raise(sky.show_tilt),
        };
    }

    /// The parameters as the shader's buffer holds them.
    pub fn floats(&self) -> (r: Vec<S>)
        ensures
            r@ == self.lanes(),
            r@.len() == 24,
    {
        let mut r: Vec<S> = Vec::new();
        push_four(&mut r, self.mirror);
        push_four(&mut r, self.sun);
        push_four(&mut r, self.zenith);
        push_four(&mut r, self.horizon);
        push_four(&mut r, self.wake);
        push_four(&mut r, self.moon);
        assert(r@ =~= self.lanes());
        r
    }
}

/// Add four numbers to a row.
fn push_four<S: Scalar>(r: &mut Vec<S>, v: Vec4<S>)
    ensures
        final(r)@ == old(r)@ + four(v),
{
    r.push(v.x);
    r.push(v.y);
    r.push(v.z);
    r.push(v.w);
    assert(r@ =~= old(r)@ + four(v));
}

/// The world camera.
pub struct Eye<S> {
    pub pos: Vec3<S>,
    pub forward: Vec3<S>,
    pub up: Vec3<S>,
    pub frame: Frame<S>,
    /// The size of the picture it draws, when that is known.
    pub target: Option<(u32, u32)>,
    /// How far it reaches, in yards.
    pub far: S,
}

/// Everything a frame tells the mirror.
pub struct MirrorScene<S> {
    /// The look the player has chosen.
    pub style: WaterStyle,
    /// Whether there is a mirrored camera to direct.
    pub present: bool,
    /// Whether the mirror is switched off.
    pub disabled: bool,
    /// The world camera, when there is one.
    pub eye: Option<Eye<S>>,
    /// How far the look test reaches.
    pub reach: S,
    /// By how much the mirror's picture is smaller than the main view, per side.
    pub downscale: u32,
    /// How far the mirror reaches.
    pub mirror_far: S,
    /// How far the mirror's clip may be dropped below the plane.
    pub drop: S,
}

/// How the mirrored camera stands.
pub struct Pose<S> {
    pub position: Vec3<S>,
    pub forward: Vec3<S>,
    pub up: Vec3<S>,
    /// The last number of the plane its lens is clipped by.
    pub clip: S,
    /// How far it reaches, in yards.
    pub far: S,
    /// Whether its picture has to be made anew, at the mirror's size.
    pub resized: bool,
}

/// What the mirror remembers from frame to frame.
pub struct Mirror<S> {
    /// The plane it serves.
    pub held: Option<S>,
    /// The size of its picture.
    pub width: u32,
    pub height: u32,
}

/// A height mirrored through a plane.
pub open spec fn mirrored_height<S: Scalar>(plane: S, y: S) -> S {
    int_of::<S>(2) * plane - y
}

/// A side of a picture so many times smaller than the view, but never shorter than the shortest.
pub open spec fn shrunk_side(side: u32, downscale: u32) -> u32 {
    let small = side / downscale;
    if small < SMALLEST_SIDE {
        SMALLEST_SIDE
    } else {
        small
    }
}

/// The size the mirror's picture should have; as it is while the view's is not known.
pub open spec fn wanted_size(
    target: Option<(u32, u32)>,
    downscale: u32,
    size: (u32, u32),
) -> (u32, u32) {
    match target {
        Some((w, h)) => (shrunk_side(w, downscale), shrunk_side(h, downscale)),
        None => size,
    }
}

/// The camera whose reflection is wanted this frame: none unless the look is on and the mirror is.
pub open spec fn watching<S: Scalar>(scene: MirrorScene<S>) -> Option<Eye<S>> {
    if scene.style == WaterStyle::Stylised && !scene.disabled {
        scene.eye
    } else {
        None
    }
}

/// The plane that serves a camera: none without water near, and none for an eye at or under it.
pub open spec fn serving<S: Scalar>(
    eye: Eye<S>,
    scene: MirrorScene<S>,
    soundings: Seq<Option<Sounding<S>>>,
    held: Option<S>,
) -> Option<Plane<S>> {
    match plane_of(soundings, eye.pos, eye.frame, scene.reach, held) {
        Some(p) => if eye.pos.y <= p.plane {
            None
        } else {
            Some(p)
        },
        None => None,
    }
}

/// How the mirrored camera of an eye above a plane stands.
pub open spec fn pose_of<S: Scalar>(
    eye: Eye<S>,
    scene: MirrorScene<S>,
    p: Plane<S>,
    size: (u32, u32),
) -> Pose<S> {
    let position = Vec3 {
        x: eye.pos.x,
        y: mirrored_height(p.plane, eye.pos.y),
        z: eye.pos.z,
    };
    let clip_at = clamped(p.lowest, p.plane - scene.drop, p.plane);
    Pose {
        position,
        forward: eye.forward.reflected(),
        up: eye.up.reflected(),
        clip: position.y - (clip_at - waterline_clip_bias::<S>()),
        far: eye.far.lesser(scene.mirror_far),
        resized: wanted_size(eye.target, scene.downscale, size) != size,
    }
}

/// The mirror's parameters while it draws.
pub open spec fn mirror_lanes<S: Scalar>(plane: S) -> Vec4<S> {
    Vec4 {
        x: plane,
        y: int_of::<S>(1),
        z: reflect_distort::<S>(),
        w: plane_tolerance::<S>(),
    }
}

/// A side of a picture so many times smaller than the view, but never shorter than the shortest.
pub fn shrink_side(n: u32, downscale: u32) -> (r: u32)
    requires
        downscale > 0,
    ensures
        r == shrunk_side(n, downscale),
{
    let small: u32 = n / downscale;
    if small < SMALLEST_SIDE {
        SMALLEST_SIDE
    } else {
        small
    }
}

impl<S: Scalar> Mirror<S> {
    /// A mirror that serves no plane yet, with a small picture.
    pub fn new() -> (r: Self)
        ensures
            r == (Mirror::<S> { held: None, width: 640, height: 360 }),
    {
        Mirror { held: None, width: 640, height: 360 }
    }

    /// Decide the frame's reflection: how the mirrored camera stands, or that it does not draw.
    ///
    /// The plane in use is held on to from frame to frame while it serves. It is let go where there
    /// is no water, and by an eye that has sunk to it: defending a plane the eye is under would hold
    /// the mirror off even where another body could serve it.
    ///
    /// The sky's parameters are taken in first, on every frame, whether or not the mirror draws.
    pub fn drive_reflection(
        &mut self,
        data: &mut WaterReflectData<S>,
        sky: &Sky<S>,
        scene: &MirrorScene<S>,
        soundings: &Vec<Option<Sounding<S>>>,
    ) -> (r: Option<Pose<S>>)
        requires
            scene.present ==> scene.downscale > 0,
            scene.present ==> (watching(*scene) matches Some(eye) ==> rankable(
                soundings@,
                eye.pos,
                eye.frame,
                scene.reach,
                soundings@.len() as int,
            )),
            scene.present ==> (watching(*scene) matches Some(eye) ==> (serving(
                eye,
                *scene,
                soundings@,
                old(self).held,
            ) matches Some(p) ==> p.plane - scene.drop <= p.plane)),
        ensures
            !scene.present ==> {
                &&& r is None
                &&& *final(self) == *old(self)
                &&& final(data).mirror == old(data).mirror
            },
            scene.present ==> match watching(*scene) {
                None => {
                    &&& r is None
                    &&& *final(self) == *old(self)
                    &&& final(data).mirror == Vec4::all(int_of::<S>(0))
                },
                Some(eye) => match serving(eye, *scene, soundings@, old(self).held) {
                    None => {
                        &&& r is None
                        &&& *final(self) == (Mirror::<S> {
                            held: None,
                            width: old(self).width,
                            height: old(self).height,
                        })
                        &&& final(data).mirror == Vec4::all(int_of::<S>(0))
                    },
                    Some(p) => {
                        let size = (old(self).width, old(self).height);
                        let want = wanted_size(eye.target, scene.downscale, size);
                        &&& r == Some(pose_of(eye, *scene, p, size))
                        &&& *final(self) == (Mirror {
                            held: Some(p.plane),
                            width: want.0,
                            height: want.1,
                        })
                        &&& final(data).mirror == mirror_lanes(p.plane)
                    },
                },
            },
            final(data).sun == sun_lanes(*sky),
            final(data).moon == moon_lanes(*sky),
            final(data).zenith == beside(sky.zenith, flag(sky.show_depth)),
            final(data).horizon == beside(sky.horizon, flag(sky.show_tilt)),
            final(data).wake == old(data).wake,
    {
        data.take_sky(sky);
        if !scene.present {
            return None;
        }
        self.aim(data, scene, soundings)
    }

    /// Decide how the mirrored camera stands, or that it does not draw.
    fn aim(
        &mut self,
        data: &mut WaterReflectData<S>,
        scene: &MirrorScene<S>,
        soundings: &Vec<Option<Sounding<S>>>,
    ) -> (r: Option<Pose<S>>)
        requires
            scene.downscale > 0,
            watching(*scene) matches Some(eye) ==> rankable(
                soundings@,
                eye.pos,
                eye.frame,
                scene.reach,
                soundings@.len() as int,
            ),
            watching(*scene) matches Some(eye) ==> (serving(
                eye,
                *scene,
                soundings@,
                old(self).held,
            ) matches Some(p) ==> p.plane - scene.drop <= p.plane),
        ensures
            match watching(*scene) {
                None => {
                    &&& r is None
                    &&& *final(self) == *old(self)
                    &&& final(data).mirror == Vec4::all(int_of::<S>(0))
                },
                Some(eye) => match serving(eye, *scene, soundings@, old(self).held) {
                    None => {
                        &&& r is None
                        &&& *final(self) == (Mirror::<S> {
                            held: None,
                            width: old(self).width,
                            height: old(self).height,
                        })
                        &&& final(data).mirror == Vec4::all(int_of::<S>(0))
                    },
                    Some(p) => {
                        let size = (old(self).width, old(self).height);
                        let want = wanted_size(eye.target, scene.downscale, size);
                        &&& r == Some(pose_of(eye, *scene, p, size))
                        &&& *final(self) == (Mirror {
                            held: Some(p.plane),
                            width: want.0,
                            height: want.1,
                        })
                        &&& final(data).mirror == mirror_lanes(p.plane)
                    },
                },
            },
            final(data).sun == old(data).sun,
            final(data).zenith == old(data).zenith,
            final(data).horizon == old(data).horizon,
            final(data).wake == old(data).wake,
            final(data).moon == old(data).moon,
    {
        let off: Vec4<S> = Vec4::splat(whole_number(0));
        if scene.style != WaterStyle::Stylised || scene.disabled {
            data.mirror = off;
            return None;
        }
        let eye: &Eye<S> = match &scene.eye {
            Some(eye) => eye,
            None => {
                data.mirror = off;
                return None;
            },
        };
        let found: Plane<S> = match plane_near(
            soundings,
            eye.pos,
            &eye.frame,
            scene.reach,
            self.held,
        ) {
            Some(p) => p,
            None => {
                self.held = None;
                data.mirror = off;
                return None;
            },
        };
        let plane: S = found.plane;
        if eye.pos.y.at_most(plane) {
            self.held = None;
            data.mirror = off;
            return None;
        }
        let (width, height) = match eye.target {
            Some((w, h)) => (shrink_side(w, scene.downscale), shrink_side(h, scene.downscale)),
            None => (self.width, self.height),
        };
        let resized: bool = width != self.width || height != self.height;
        self.width = width;
        self.height = height;

        let two: S = whole_number(2);
        let position: Vec3<S> = Vec3 {
            x: eye.pos.x,
            y: two.times(plane).minus(eye.pos.y),
            z: eye.pos.z,
        };
        let bias: S = S::ratio(25, 100);
        let clip_at: S = clamp(found.lowest, plane.minus(scene.drop), plane);
        let clip: S = position.y.minus(clip_at.minus(bias));
        self.held = Some(plane);
        data.mirror = Vec4 {
            x: plane,
            y: whole_number(1),
            z: S::ratio(55, 1000),
            w: whole_number(10),
        };
        Some(
            Pose {
                position,
                forward: eye.forward.reflect(),
                up: eye.up.reflect(),
                clip,
                far: eye.far.least(scene.mirror_far),
                resized,
            },
        )
    }
}

/// There is no reflection under water: a camera is served only by a plane it is above.
pub proof fn law_no_mirror_under_water<S: Scalar>(
    eye: Eye<S>,
    scene: MirrorScene<S>,
    soundings: Seq<Option<Sounding<S>>>,
    held: Option<S>,
)
    ensures
        serving(eye, scene, soundings, held) matches Some(p) ==> !(eye.pos.y <= p.plane),
{
}

/// The mirrored camera is as far below the plane as the eye is above it, and mirroring twice is
/// standing where one was.
pub proof fn law_the_eye_is_reflected(plane: Fixed, y: Fixed)
    requires
        -0x1000_0000_0000_0000 <= plane.raw <= 0x1000_0000_0000_0000,
        -0x1000_0000_0000_0000 <= y.raw <= 0x1000_0000_0000_0000,
    ensures
        plane - mirrored_height(plane, y) == y - plane,
        mirrored_height(plane, mirrored_height(plane, y)) == y,
{
    assert(int_of::<Fixed>(2).raw == 2 * ONE);
    vstd::arithmetic::div_mod::lemma_div_multiples_vanish(2 * plane.raw, ONE as int);
    assert(int_of::<Fixed>(2).raw * plane.raw == ONE * (2 * plane.raw)) by (nonlinear_arith)
        requires
            int_of::<Fixed>(2).raw == 2 * ONE,
    ;
    assert((int_of::<Fixed>(2) * plane).raw == 2 * plane.raw);
}

/// The mirrored camera looks as far up as the eye looks down, and the other two ways unchanged.
pub proof fn law_the_view_is_reflected(v: Vec3<Fixed>)
    requires
        v.y.raw > i64::MIN,
    ensures
        v.reflected().x == v.x,
        v.reflected().z == v.z,
        v.reflected().y.raw == -v.y.raw,
        v.reflected().reflected() == v,
{
}

/// The mirror never reaches further than it was told to, nor further than the view it belongs to.
pub proof fn law_the_mirror_reaches_no_further(
    eye: Eye<Fixed>,
    scene: MirrorScene<Fixed>,
    p: Plane<Fixed>,
    size: (u32, u32),
)
    ensures
        pose_of(eye, scene, p, size).far <= eye.far,
        pose_of(eye, scene, p, size).far <= scene.mirror_far,
{
}

/// Whether a number is no further than two hundred and fifty million yards from nothing.
pub open spec fn modest(v: Fixed) -> bool {
    -0x1000_0000_0000_0000 <= v.raw <= 0x1000_0000_0000_0000
}

/// The mirrored camera is the eye's reflection: as far below the plane as the eye is above it, right
/// under it, and looking as far up as the eye looks down.
pub proof fn law_the_camera_is_the_eyes_reflection(
    eye: Eye<Fixed>,
    scene: MirrorScene<Fixed>,
    p: Plane<Fixed>,
    size: (u32, u32),
)
    requires
        modest(p.plane),
        modest(eye.pos.y),
        modest(eye.forward.y),
        modest(eye.up.y),
    ensures
        ({
            let c = pose_of(eye, scene, p, size);
            &&& p.plane.raw - c.position.y.raw == eye.pos.y.raw - p.plane.raw
            &&& c.position.x == eye.pos.x
            &&& c.position.z == eye.pos.z
            &&& c.forward.y.raw == -eye.forward.y.raw
            &&& c.forward.x == eye.forward.x
            &&& c.forward.z == eye.forward.z
            &&& c.up.y.raw == -eye.up.y.raw
            &&& c.up.x == eye.up.x
            &&& c.up.z == eye.up.z
        }),
{
    law_the_eye_is_reflected(p.plane, eye.pos.y);
}

/// The mirror is clipped a quarter of a yard below the lowest water that it shows, or below the plane
/// where that is lower, and no further down than the drop allows: `clip` is how far the camera is above
/// that.
pub proof fn law_the_mirror_is_clipped_below_the_water(
    eye: Eye<Fixed>,
    scene: MirrorScene<Fixed>,
    p: Plane<Fixed>,
    size: (u32, u32),
)
    requires
        modest(p.plane),
        modest(p.lowest),
        modest(eye.pos.y),
        modest(scene.drop),
        0 <= scene.drop.raw,
    ensures
        ({
            let c = pose_of(eye, scene, p, size);
            let at = c.position.y.raw - c.clip.raw + 0x4000_0000;
            &&& p.plane.raw - scene.drop.raw <= at <= p.plane.raw
            &&& p.lowest.raw >= p.plane.raw ==> at == p.plane.raw
            &&& p.plane.raw - scene.drop.raw <= p.lowest.raw <= p.plane.raw ==> at == p.lowest.raw
            &&& p.lowest.raw <= p.plane.raw - scene.drop.raw ==> at == p.plane.raw - scene.drop.raw
        }),
{
    law_the_eye_is_reflected(p.plane, eye.pos.y);
    assert(waterline_clip_bias::<Fixed>().raw == 0x4000_0000);
}

/// What the shader is told while the mirror draws: the plane's height, that all of the reflection shows,
/// that the surface displaces it by fifty five thousandths, and that ten yards either way of the plane
/// is served in full.
pub proof fn law_the_shader_is_told_the_plane(plane: Fixed)
    ensures
        mirror_lanes(plane).x == plane,
        mirror_lanes(plane).y.raw == 0x1_0000_0000,
        mirror_lanes(plane).z.raw == 236223201,
        mirror_lanes(plane).w.raw == 0xa_0000_0000,
{
}

/// The mirror's picture is so many times smaller than the view, rounded down, and no side of it is
/// shorter than sixty four.
pub proof fn law_the_picture_is_smaller_than_the_view(w: u32, h: u32, downscale: u32, size: (u32, u32))
    requires
        downscale > 0,
    ensures
        ({
            let (a, b) = wanted_size(Some((w, h)), downscale, size);
            &&& a >= 64
            &&& b >= 64
            &&& a > 64 ==> a * downscale <= w < (a + 1) * downscale
            &&& b > 64 ==> b * downscale <= h < (b + 1) * downscale
            &&& w < 65 * downscale ==> a == 64
            &&& h < 65 * downscale ==> b == 64
        }),
        wanted_size(None, downscale, size) == size,
{
    lemma_side(w, downscale);
    lemma_side(h, downscale);
}

proof fn lemma_side(n: u32, d: u32)
    requires
        d > 0,
    ensures
        ({
            let a = shrunk_side(n, d);
            &&& a >= 64
            &&& a > 64 ==> a * d <= n < (a + 1) * d
            &&& n < 65 * d ==> a == 64
        }),
{
    let q = n as int / d as int;
    vstd::arithmetic::div_mod::lemma_fundamental_div_mod(n as int, d as int);
    vstd::arithmetic::div_mod::lemma_mod_bound(n as int, d as int);
    assert(q * d == d * q) by (nonlinear_arith);
    assert((q + 1) * d == q * d + d) by (nonlinear_arith);
    if n < 65 * d && q > 64 {
        assert(q * d >= 65 * d) by (nonlinear_arith)
            requires
                q >= 65,
                d > 0,
        ;
    }
}

/// The mirror serves only a look that has one, only while it is not switched off, and only an eye above
/// the plane.
pub proof fn law_the_mirror_serves_an_eye_above_the_plane(
    eye: Eye<Fixed>,
    scene: MirrorScene<Fixed>,
    soundings: Seq<Option<Sounding<Fixed>>>,
    held: Option<Fixed>,
)
    ensures
        watching(scene) is Some <==> scene.style == WaterStyle::Stylised && !scene.disabled
            && scene.eye is Some,
        watching(scene) matches Some(e) ==> scene.eye == Some(e),
        serving(eye, scene, soundings, held) is Some <==> (plane_of(
            soundings,
            eye.pos,
            eye.frame,
            scene.reach,
            held,
        ) matches Some(p) && p.plane.raw < eye.pos.y.raw),
        serving(eye, scene, soundings, held) matches Some(p) ==> plane_of(
            soundings,
            eye.pos,
            eye.frame,
            scene.reach,
            held,
        ) == Some(p),
{
}

/// Where each of the shader's numbers stands among the twenty four it reads.
pub proof fn law_the_shader_reads_its_numbers_in_order<S: Scalar>(data: WaterReflectData<S>)
    ensures
        data.lanes().len() == 24,
        data.lanes()[0] == data.mirror.x,
        data.lanes()[1] == data.mirror.y,
        data.lanes()[2] == data.mirror.z,
        data.lanes()[3] == data.mirror.w,
        data.lanes()[4] == data.sun.x,
        data.lanes()[5] == data.sun.y,
        data.lanes()[6] == data.sun.z,
        data.lanes()[7] == data.sun.w,
        data.lanes()[8] == data.zenith.x,
        data.lanes()[9] == data.zenith.y,
        data.lanes()[10] == data.zenith.z,
        data.lanes()[11] == data.zenith.w,
        data.lanes()[12] == data.horizon.x,
        data.lanes()[13] == data.horizon.y,
        data.lanes()[14] == data.horizon.z,
        data.lanes()[15] == data.horizon.w,
        data.lanes()[16] == data.wake.x,
        data.lanes()[17] == data.wake.y,
        data.lanes()[18] == data.wake.z,
        data.lanes()[19] == data.wake.w,
        data.lanes()[20] == data.moon.x,
        data.lanes()[21] == data.moon.y,
        data.lanes()[22] == data.moon.z,
        data.lanes()[23] == data.moon.w,
{
}

/// A view is as many times as wide as it is tall: its height, so many times over, is its width, but for
/// what the numbers round. While its size is not known it is sixteen to nine.
pub proof fn law_an_aspect_is_width_to_height(w: u32, h: u32)
    requires
        w < 0x8000_0000,
        h < 0x8000_0000,
    ensures
        ({
            let (a, tall) = (aspect::<Fixed>(Some((w, h))).raw, if h == 0 {
                1int
            } else {
                h as int
            });
            a * tall <= w * 0x1_0000_0000 < (a + 1) * tall
        }),
        9 * aspect::<Fixed>(None).raw <= 0x10_0000_0000 < 9 * (aspect::<Fixed>(None).raw + 1),
{
    let tall = if h == 0 {
        1int
    } else {
        h as int
    };
    assert(at_least_one(h) == tall);
    assert(int_of::<Fixed>(w as int).raw == w * 0x1_0000_0000);
    assert(int_of::<Fixed>(tall).raw == tall * 0x1_0000_0000);
    assert(int_of::<Fixed>(16).raw == 0x10_0000_0000 && int_of::<Fixed>(9).raw == 0x9_0000_0000);
    let (top, d) = (w * 0x1_0000_0000 * 0x1_0000_0000, tall * 0x1_0000_0000);
    let q = top / d;
    vstd::arithmetic::div_mod::lemma_fundamental_div_mod(top, d);
    vstd::arithmetic::div_mod::lemma_mod_bound(top, d);
    let qt = q * tall;
    assert(qt * 0x1_0000_0000 == d * q) by (nonlinear_arith)
        requires
            qt == q * tall,
            d == tall * 0x1_0000_0000,
    ;
    assert((q + 1) * tall == qt + tall) by (nonlinear_arith)
        requires
            qt == q * tall,
    ;
    assert(0 <= q <= i64::MAX) by (nonlinear_arith)
        requires
            qt == q * tall,
            0 <= qt + tall - 1,
            qt <= 0x7fff_ffff * 0x1_0000_0000,
            1 <= tall,
    ;
    assert(aspect::<Fixed>(Some((w, h))).raw == q);
}

/// What is asked of the mirror is what it does, within reason: it looks no less far than a hundred and
/// twenty yards; it reaches as far as asked, where that is any distance, and five hundred yards
/// otherwise; its picture is from one to eight times smaller, as asked, and twice where nothing was;
/// and its clip is dropped as asked, or not at all.
pub proof fn law_the_mirror_does_as_asked(
    view: Fixed,
    far: Option<Fixed>,
    smaller: Option<u32>,
    drop: Option<Fixed>,
)
    ensures
        reach_of_view(view).raw >= 0x78_0000_0000,
        view.raw >= 0x78_0000_0000 ==> reach_of_view(view) == view,
        view.raw <= 0x78_0000_0000 ==> reach_of_view(view).raw == 0x78_0000_0000,
        far matches Some(f) ==> if f.raw > 0 {
            far_asked(far) == f
        } else {
            far_asked(far).raw == 0x1f4_0000_0000
        },
        far is None ==> far_asked(far).raw == 0x1f4_0000_0000,
        1 <= downscale_asked(smaller) <= 8,
        smaller matches Some(n) ==> {
            &&& 1 <= n <= 8 ==> downscale_asked(smaller) == n
            &&& n == 0 ==> downscale_asked(smaller) == 1
            &&& n > 8 ==> downscale_asked(smaller) == 8
        },
        smaller is None ==> downscale_asked(smaller) == 2,
        drop matches Some(d) ==> drop_asked(drop) == d,
        drop is None ==> drop_asked(drop).raw == 0,
{
    assert(int_of::<Fixed>(0).raw == 0);
    assert(int_of::<Fixed>(120).raw == 0x78_0000_0000);
    assert(int_of::<Fixed>(500).raw == 0x1f4_0000_0000);
}

/// What the shader is told of the sky: either light by the way to it, of length one, and how much of it
/// can be seen, where two stands for painting the scene behind the water.
pub proof fn law_the_shader_is_told_the_lights(sky: Sky<Fixed>)
    ensures
        ({
            let (s, m) = (sun_lanes(sky), moon_lanes(sky));
            &&& (Vec3 { x: s.x, y: s.y, z: s.z }) == sky.to_sun.unit()
            &&& s.w == sky.sun_visible
            &&& (Vec3 { x: m.x, y: m.y, z: m.z }) == sky.to_moon.unit()
            &&& sky.show_scene ==> m.w.raw == 0x2_0000_0000
            &&& !sky.show_scene ==> m.w == sky.moon_visible
        }),
{
    assert(int_of::<Fixed>(2).raw == 0x2_0000_0000);
}

/// The mirror's picture is made anew exactly where the size it should have is not the size it has.
pub proof fn law_a_picture_is_made_anew_when_its_size_changes(
    eye: Eye<Fixed>,
    scene: MirrorScene<Fixed>,
    p: Plane<Fixed>,
    size: (u32, u32),
)
    requires
        scene.downscale > 0,
    ensures
        eye.target is None ==> !pose_of(eye, scene, p, size).resized,
        eye.target matches Some(t) ==> (pose_of(eye, scene, p, size).resized <==> {
            ||| size.0 < 64
            ||| size.1 < 64
            ||| size.0 > 64 && !(size.0 * scene.downscale <= t.0 < (size.0 + 1) * scene.downscale)
            ||| size.1 > 64 && !(size.1 * scene.downscale <= t.1 < (size.1 + 1) * scene.downscale)
            ||| size.0 == 64 && t.0 >= 65 * scene.downscale
            ||| size.1 == 64 && t.1 >= 65 * scene.downscale
        }),
{
    if let Some(t) = eye.target {
        lemma_side(t.0, scene.downscale);
        lemma_side(t.1, scene.downscale);
        lemma_one_size(t.0, scene.downscale, size.0);
        lemma_one_size(t.1, scene.downscale, size.1);
    }
}

proof fn lemma_one_size(n: u32, d: u32, size: u32)
    requires
        d > 0,
    ensures
        size != shrunk_side(n, d) <==> {
            ||| size < 64
            ||| size > 64 && !(size * d <= n < (size + 1) * d)
            ||| size == 64 && n >= 65 * d
        },
{
    lemma_side(n, d);
    let a = shrunk_side(n, d) as int;
    let s = size as int;
    let (q, rem) = (n as int / d as int, n as int % d as int);
    vstd::arithmetic::div_mod::lemma_fundamental_div_mod(n as int, d as int);
    vstd::arithmetic::div_mod::lemma_mod_bound(n as int, d as int);
    if s * d <= n < (s + 1) * d {
        assert(s == q) by (nonlinear_arith)
            requires
                s * d <= n < (s + 1) * d,
                n == d * q + rem,
                0 <= rem < d,
        ;
    }
    if a == 64 && n >= 65 * d {
        assert(q >= 65) by (nonlinear_arith)
            requires
                n >= 65 * d,
                n == d * q + rem,
                0 <= rem < d,
        ;
    }
}

} // verus!
