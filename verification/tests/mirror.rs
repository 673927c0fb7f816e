use benilla_liquid::depth::{depth_enabled, maintain_depth_prepass, PrepassChange};
use benilla_liquid::frame::{edge_fade, Frame};
use benilla_liquid::geometry::{Vec2, Vec3, Vec4};
use benilla_liquid::mirror::{
    aspect_of, clip_drop, look_reach, mirror_far, picture_side, reflect_downscale,
    world_camera_layers, Eye, Mirror, MirrorScene, Sky, WaterReflectData, UNMIRRORED_RENDER_LAYER,
    WATER_RENDER_LAYER,
};
use benilla_liquid::plane::{
    can_rank, is_ahead, plane_near, survey_surfaces, wet_height_near, Bounds, Sounding, Wet,
};
use benilla_liquid::prominence::{Prominence, Slot, PROMINENCE_SLOTS};
use benilla_liquid::scalar::Scalar;
use benilla_liquid::scene_color::WaterSceneColor;
use benilla_liquid::style::WaterStyle;
use bevy::prelude::Transform;

/// Single precision numbers, as the renderer has them.
#[derive(Clone, Copy, Debug, PartialEq, PartialOrd)]
struct R(f32);

impl Scalar for R {
    fn plus(self, other: Self) -> Self {
        R(self.0 + other.0)
    }
    fn minus(self, other: Self) -> Self {
        R(self.0 - other.0)
    }
    fn times(self, other: Self) -> Self {
        R(self.0 * other.0)
    }
    fn over(self, other: Self) -> Self {
        R(self.0 / other.0)
    }
    fn negated(self) -> Self {
        R(-self.0)
    }
    fn less(self, other: Self) -> bool {
        self.0 < other.0
    }
    fn at_most(self, other: Self) -> bool {
        self.0 <= other.0
    }
    fn ratio(num: i64, den: u64) -> Self {
        R((num as f64 / den as f64) as f32)
    }
    fn largest() -> Self {
        R(f32::MAX)
    }
    fn absolute(self) -> Self {
        R(self.0.abs())
    }
    fn floor(self) -> Self {
        R(self.0.floor())
    }
    fn ceil(self) -> Self {
        R(self.0.ceil())
    }
    fn round(self) -> Self {
        R(self.0.round())
    }
    fn sqrt(self) -> Self {
        R(self.0.sqrt())
    }
    fn least(self, other: Self) -> Self {
        R(self.0.min(other.0))
    }
    fn greatest(self, other: Self) -> Self {
        R(self.0.max(other.0))
    }
    fn is_finite(self) -> bool {
        self.0.is_finite()
    }
    fn to_i32(self) -> i32 {
        self.0 as i32
    }
    fn to_index(self) -> usize {
        self.0 as usize
    }
    fn to_byte(self) -> u8 {
        self.0 as u8
    }
}

fn v2(x: f32, y: f32) -> Vec2<R> {
    Vec2 { x: R(x), y: R(y) }
}

fn v3(x: f32, y: f32, z: f32) -> Vec3<R> {
    Vec3 { x: R(x), y: R(y), z: R(z) }
}

fn tangent(angle: R) -> R {
    R(angle.0.tan())
}

fn frame(forward: Vec3<R>) -> Frame<R> {
    Frame::new(forward, v3(0.0, 1.0, 0.0), R(0.8), R(16.0 / 9.0), &tangent)
}

fn fade(offset: f32, half: f32) -> f32 {
    edge_fade(R(offset), R(half)).0
}

fn best(seen: &Prominence<R>) -> Option<f32> {
    seen.best().map(|z| z.0)
}

fn sticky(seen: &Prominence<R>, held: Option<f32>) -> Option<f32> {
    seen.best_sticky(held.map(R)).map(|z| z.0)
}

/// A grid of three by three points ten yards apart, some of whose four cells are wet.
struct Pool {
    z: f32,
    wet: [bool; 4],
}

impl Pool {
    fn surface_z_at(&self, x: f32, y: f32) -> Option<f32> {
        if !(0.0..=20.0).contains(&x) || !(0.0..=20.0).contains(&y) {
            return None;
        }
        let i = ((x / 10.0) as usize).min(1);
        let j = ((y / 10.0) as usize).min(1);
        self.wet[j * 2 + i].then_some(self.z)
    }

    fn bounds(&self) -> Bounds<R> {
        let mut b = Bounds { min: v2(f32::MAX, f32::MAX), max: v2(f32::MIN, f32::MIN) };
        for cell in 0..4 {
            if self.wet[cell] {
                let (i, j) = ((cell % 2) as f32 * 10.0, (cell / 2) as f32 * 10.0);
                b.min = v2(b.min.x.0.min(i), b.min.y.0.min(j));
                b.max = v2(b.max.x.0.max(i + 10.0), b.max.y.0.max(j + 10.0));
            }
        }
        b
    }

    fn wet_height_near(&self, x: f32, y: f32, lattice: bool) -> Option<Wet<R>> {
        let probe = |_chunk: usize, p: Vec2<R>| self.surface_z_at(p.x.0, p.y.0).map(R);
        wet_height_near(&probe, 0, self.bounds(), v2(x, y), lattice)
    }
}

/// Exactly one wet cell, the far corner one.
fn holed_chunk(z: f32) -> Pool {
    Pool { z, wet: [false, false, false, true] }
}

/// A wet region that is not convex: the box around its wet cells has a dry corner in it.
fn elled_chunk(z: f32) -> Pool {
    Pool { z, wet: [false, true, true, false] }
}

#[test]
fn a_dry_point_inside_a_pools_footprint_still_finds_its_water() {
    let chunk = holed_chunk(42.0);
    assert!(chunk.surface_z_at(1.0, 1.0).is_none());
    let wet = chunk.wet_height_near(1.0, 1.0, true).expect("the wet cell is found");
    assert!((wet.z.0 - 42.0).abs() < 1e-3, "the pool's height, not a guess: {:?}", wet.z);
    assert!(wet.d2.0 > 0.0, "the sample is somewhere else on the surface");
    let wet = chunk.wet_height_near(15.0, 15.0, false).expect("wet under the point");
    assert!((wet.z.0 - 42.0).abs() < 1e-3);
    assert!(wet.d2.0 < 1e-6, "the near point itself was wet: {:?}", wet.d2);
}

#[test]
fn only_the_far_surfaces_skip_the_lattice() {
    let chunk = elled_chunk(7.0);
    assert!(chunk.surface_z_at(1.0, 1.0).is_none(), "the fixture's corner is dry");
    let wet = chunk.wet_height_near(1.0, 1.0, true).expect("the lattice finds the L");
    assert!((wet.z.0 - 7.0).abs() < 1e-3, "the L's height: {:?}", wet.z);
    assert!(wet.d2.0 > 0.0, "the water is somewhere else on the surface");
    assert!(
        chunk.wet_height_near(1.0, 1.0, false).is_none(),
        "without the lattice a dry corner is simply not a candidate"
    );
}

/// The lattice answers with its nearest wet point, and of equally near ones with the first.
#[test]
fn the_lattice_takes_the_first_of_its_nearest_points() {
    let wet = elled_chunk(7.0).wet_height_near(1.0, 1.0, true).expect("wet");
    // Lattice points are five yards apart; (0, 10) and (10, 0) are equally near, and the columns
    // are walked first.
    assert_eq!((wet.at.x.0, wet.at.y.0), (0.0, 10.0));
    assert_eq!(wet.d2.0, 82.0);
}

#[test]
fn the_sea_up_the_beach_is_in_frame_even_when_the_centre_ray_misses() {
    let forward = bevy::math::Vec3::new(-1.0, -0.052, 0.0).normalize(); // ~3 deg down
    let frame = frame(v3(forward.x, forward.y, forward.z));
    let eye = v3(0.0, 12.0, 0.0);
    let sea = v3(-400.0, 0.0, 0.0);
    let seen = frame.depth_if_visible(eye, sea).expect("the sea is in the upper half of the frame");
    let (depth, weight) = (seen.depth.0, seen.weight.0);
    assert!(weight > 0.9, "well inside the frame, so barely faded: {weight}");
    assert!((depth - 400.0).abs() < 5.0, "depth should be the distance ahead: {depth}");
    let centre_hit = 12.0 / (3.0_f32.to_radians()).tan();
    assert!(centre_hit < 300.0, "the centre ray lands on the beach, not the sea: {centre_hit}");
}

#[test]
fn the_ocean_outranks_a_roadside_pool_it_is_further_away_than() {
    let mut seen = Prominence::new();
    seen.add(R(10.07), R(3600.0 / (150.0 * 150.0)));
    for i in 0..100 {
        let depth = 400.0 + i as f32 * 3.0;
        seen.add(R(0.0), R(1109.0 / (depth * depth)));
    }
    assert_eq!(best(&seen), Some(0.0), "the sea covers more screen than the pool");
}

#[test]
fn a_pond_you_are_standing_at_outranks_a_distant_sea() {
    let mut seen = Prominence::new();
    seen.add(R(10.07), R(3600.0 / (12.0 * 12.0)));
    for i in 0..100 {
        let depth = 600.0 + i as f32 * 1.0;
        seen.add(R(0.0), R(1109.0 / (depth * depth)));
    }
    assert_eq!(best(&seen), Some(10.07));
}

#[test]
fn one_water_body_accumulates_across_its_chunks() {
    let mut seen = Prominence::new();
    for _ in 0..10 {
        seen.add(R(57.63), R(1.0));
    }
    seen.add(R(57.9), R(1.0)); // the same body, folded in
    seen.add(R(70.0), R(5.0)); // a different body, on its own
    assert_eq!(seen.used(), 2, "two bodies, not twelve surfaces");
    assert_eq!(best(&seen), Some(57.63), "11.0 of river beats 5.0 of pond");
}

#[test]
fn more_heights_than_slots_still_answers() {
    let mut seen = Prominence::new();
    for i in 0..(PROMINENCE_SLOTS + 4) {
        seen.add(R(i as f32 * 10.0), R(1.0));
    }
    assert_eq!(seen.used(), PROMINENCE_SLOTS);
    assert!(best(&seen).is_some(), "an overfull view still has an answer");
}

/// A full ranking folds a new height into the nearest one, and one that compares to none has no
/// room.
#[test]
fn a_full_ranking_folds_into_the_nearest_height() {
    let mut seen = Prominence::new();
    for i in 0..PROMINENCE_SLOTS {
        seen.add(R(i as f32 * 10.0), R(1.0));
    }
    assert!(seen.fits(R(31.0)));
    seen.add(R(31.0), R(4.0));
    assert_eq!(seen.slot(3), Slot { z: R(30.0), score: R(5.0) });
    assert_eq!(best(&seen), Some(30.0));
    assert!(!seen.fits(R(f32::NAN)));
    // A score that does not count changes nothing, wherever it would have gone.
    seen.add(R(f32::NAN), R(0.0));
    seen.add(R(0.0), R(f32::INFINITY));
    seen.add(R(0.0), R(-1.0));
    assert_eq!(seen.top(), R(5.0));
    assert_eq!(seen.slot(0).score, R(1.0));
}

#[test]
fn the_incumbent_holds_until_a_challenger_is_clearly_better() {
    let mut seen = Prominence::new();
    seen.add(R(10.069875), R(23.4)); // the pool, in frame
    seen.add(R(0.0), R(3.9)); // the ocean behind it
    assert_eq!(sticky(&seen, None), Some(10.069875), "no incumbent: the top score");
    assert_eq!(sticky(&seen, Some(10.069875)), Some(10.069875), "it defends its own");

    let mut turning = Prominence::new();
    turning.add(R(10.069875), R(4.2));
    turning.add(R(0.0), R(4.8));
    assert_eq!(
        sticky(&turning, Some(10.069875)),
        Some(10.069875),
        "a 14% lead is not enough to move the capture"
    );

    let mut past = Prominence::new();
    past.add(R(10.069875), R(2.0));
    past.add(R(0.0), R(9.0));
    assert_eq!(sticky(&past, Some(10.069875)), Some(0.0), "4.5x clears the bar");
}

#[test]
fn an_incumbent_that_left_the_frame_gives_way_at_once() {
    let mut seen = Prominence::new();
    seen.add(R(0.0), R(2.1)); // only the ocean is left in frame
    assert_eq!(sticky(&seen, Some(10.069875)), Some(0.0));
}

#[test]
fn nothing_in_frame_has_no_plane() {
    let seen: Prominence<R> = Prominence::new();
    assert_eq!(best(&seen), None);
    assert_eq!(sticky(&seen, Some(3.0)), None);
    assert_eq!(seen.top(), R(0.0));
}

#[test]
fn a_surface_fades_out_of_frame_instead_of_vanishing() {
    let half = 0.4_f32;
    assert_eq!(fade(0.0, half), 1.0, "dead centre");
    assert_eq!(fade(half, half), 1.0, "the frustum edge itself is still full");
    let mid = fade(half * 1.17, half);
    assert!(mid > 0.2 && mid < 0.8, "partway into the slop it is partial: {mid}");
    assert_eq!(fade(half * 1.35, half), 0.0, "the far side of the slop");
    assert_eq!(fade(half * 5.0, half), 0.0, "and it stays there");
}

#[test]
fn the_frame_rejects_what_is_behind_it_and_off_its_edges() {
    let frame = frame(v3(0.0, 0.0, -1.0));
    let eye = v3(0.0, 0.0, 0.0);
    assert!(
        frame.depth_if_visible(eye, v3(0.0, 0.0, 100.0)).is_none(),
        "a pool behind the camera is not what the player is looking at"
    );
    assert!(
        frame.depth_if_visible(eye, v3(0.0, 0.0, -100.0)).is_some(),
        "dead ahead is in frame"
    );
    assert!(frame.depth_if_visible(eye, v3(0.0, 100.0, -1.0)).is_none());
    assert!(frame.depth_if_visible(eye, v3(500.0, 0.0, -1.0)).is_none());
}

#[test]
fn the_frame_is_forgiving_at_its_edge_but_not_boundless() {
    let frame = frame(v3(0.0, 0.0, -1.0));
    let eye = v3(0.0, 0.0, 0.0);
    let tan_v = (0.8_f32 * 0.5).tan();
    let at = |up: f32| v3(0.0, up * 100.0, -100.0);
    assert!(
        frame.depth_if_visible(eye, at(tan_v * 1.2)).is_some(),
        "just past the edge still reads as looked-at"
    );
    assert!(
        frame.depth_if_visible(eye, at(tan_v * 2.0)).is_none(),
        "well past it does not"
    );
}

/// A frame's axes are squared against the view, and a camera with no view has none.
#[test]
fn a_frame_squares_its_axes() {
    let frame = Frame::new(v3(0.0, 0.0, -2.0), v3(0.0, 3.0, -5.0), R(0.8), R(0.01), &tangent);
    assert_eq!(frame.forward, v3(0.0, 0.0, -1.0));
    assert_eq!(frame.up, v3(0.0, 1.0, 0.0));
    assert_eq!(frame.right, v3(1.0, 0.0, 0.0));
    assert_eq!(frame.tan_v.0, 0.4_f32.tan());
    assert_eq!(frame.tan_h.0, 0.4_f32.tan() * 0.1, "no picture is thinner than a tenth");
    assert_eq!(v3(0.0, 0.0, 0.0).normalize_or_zero(), v3(0.0, 0.0, 0.0));
    assert_eq!(v3(3.0, 0.0, 4.0).normalize_or_zero().x.0, 3.0 * (1.0 / 5.0));
}

fn flat_eye(pos: Vec3<R>, forward: Vec3<R>, up: Vec3<R>, target: Option<(u32, u32)>) -> Eye<R> {
    Eye {
        pos,
        forward,
        up,
        frame: Frame::new(forward, up, R(0.8), aspect_of(target), &tangent),
        target,
        far: R(3000.0),
    }
}

fn mirror_scene(style: WaterStyle, eye: Option<Eye<R>>) -> MirrorScene<R> {
    MirrorScene {
        style,
        present: true,
        disabled: false,
        eye,
        reach: look_reach(R(700.0)),
        downscale: reflect_downscale(None),
        mirror_far: mirror_far(None),
        drop: clip_drop(None),
    }
}

/// A sky with nothing in it.
fn dark() -> Sky<R> {
    let none = v3(0.0, 0.0, 0.0);
    Sky {
        to_sun: none,
        sun_visible: R(0.0),
        to_moon: none,
        moon_visible: R(0.0),
        zenith: none,
        horizon: none,
        show_scene: false,
        show_depth: false,
        show_tilt: false,
    }
}

/// Level water beside the eye, near enough to be the fallback plane.
fn beside(z: f32) -> Vec<Option<Sounding<R>>> {
    vec![
        None,
        Some(Sounding {
            wet: Wet { z: R(z), d2: R(4.0), at: v2(1.0, 1.0) },
            near: true,
            ahead: true,
            area: R(100.0),
        }),
    ]
}

#[test]
fn the_mirrored_pose_reflects_through_the_plane() {
    let plane = 12.0;
    let eye = Transform::from_xyz(3.0, 20.0, -7.0)
        .looking_to(bevy::math::Vec3::new(0.0, -1.0, 1.0), bevy::math::Vec3::Y);
    let f: bevy::math::Vec3 = eye.forward().into();
    let u: bevy::math::Vec3 = eye.up().into();
    let camera = flat_eye(v3(3.0, 20.0, -7.0), v3(f.x, f.y, f.z), v3(u.x, u.y, u.z), None);
    let mut data = WaterReflectData::new();
    let pose = Mirror::new()
        .drive_reflection(&mut data, &dark(), &mirror_scene(WaterStyle::Stylised, Some(camera)), &beside(plane))
        .expect("the eye is above the water");
    let bevy = |v: Vec3<R>| bevy::math::Vec3::new(v.x.0, v.y.0, v.z.0);
    let mirrored = Transform::from_translation(bevy(pose.position))
        .looking_to(bevy(pose.forward), bevy(pose.up));
    // As far below the plane as the eye is above it.
    assert!((mirrored.translation.y - 4.0).abs() < 1e-5);
    // Looking as far up as the eye looks down.
    let mf: bevy::math::Vec3 = mirrored.forward().into();
    assert!((mf.y + f.y).abs() < 1e-5, "{f:?} vs {mf:?}");
    assert!((mf.x - f.x).abs() < 1e-5 && (mf.z - f.z).abs() < 1e-5);
}

/// The mirror's parameters, its clip, its reach and its size.
#[test]
fn a_mirror_that_draws_is_told_everything() {
    let camera = flat_eye(v3(0.0, 20.0, 0.0), v3(0.0, 0.0, -1.0), v3(0.0, 1.0, 0.0), Some((1921, 100)));
    let mut data = WaterReflectData::new();
    let mut mirror = Mirror::new();
    let scene = mirror_scene(WaterStyle::Stylised, Some(camera));
    let pose = mirror.drive_reflection(&mut data, &dark(), &scene, &beside(12.0)).expect("on");
    assert!(pose.resized);
    assert_eq!((mirror.width, mirror.height), (960, 64));
    assert_eq!(mirror.held, Some(R(12.0)));
    assert_eq!(pose.far, R(500.0));
    // Four yards up, less the plane and a quarter under it.
    assert_eq!(pose.clip, R(4.0 - 11.75));
    let floats: Vec<f32> = data.floats().iter().map(|v| v.0).collect();
    assert_eq!(floats.len(), 24);
    assert_eq!(floats[..4], [12.0, 1.0, 0.055, 10.0]);
    assert_eq!(floats[4..], [0.0; 20]);
    // The second frame holds on to what the first made.
    let pose = mirror.drive_reflection(&mut data, &dark(), &scene, &beside(12.0)).expect("on");
    assert!(!pose.resized);
}

#[test]
fn a_mirror_is_off_without_the_look_the_camera_or_the_water() {
    let eye = |y: f32| flat_eye(v3(0.0, y, 0.0), v3(0.0, 0.0, -1.0), v3(0.0, 1.0, 0.0), None);
    let mut data = WaterReflectData::new();
    let mut mirror = Mirror { held: Some(R(1.0)), width: 64, height: 64 };

    // The look and the camera decide before the water is looked at, so the plane is kept.
    let scene = mirror_scene(WaterStyle::Reference, Some(eye(20.0)));
    assert!(mirror.drive_reflection(&mut data, &dark(), &scene, &beside(12.0)).is_none());
    let scene = mirror_scene(WaterStyle::Stylised, None);
    assert!(mirror.drive_reflection(&mut data, &dark(), &scene, &beside(12.0)).is_none());
    let mut scene = mirror_scene(WaterStyle::Stylised, Some(eye(20.0)));
    scene.disabled = true;
    assert!(mirror.drive_reflection(&mut data, &dark(), &scene, &beside(12.0)).is_none());
    assert_eq!(mirror.held, Some(R(1.0)));

    // Drawing, then under the surface: the plane is let go.
    let scene = mirror_scene(WaterStyle::Stylised, Some(eye(20.0)));
    assert!(mirror.drive_reflection(&mut data, &dark(), &scene, &beside(12.0)).is_some());
    assert_eq!(mirror.held, Some(R(12.0)));
    let scene = mirror_scene(WaterStyle::Stylised, Some(eye(12.0)));
    assert!(mirror.drive_reflection(&mut data, &dark(), &scene, &beside(12.0)).is_none());
    assert_eq!(mirror.held, None);
    assert_eq!(data.mirror.y, R(0.0));

    // No water at all lets it go too.
    mirror.held = Some(R(3.0));
    let scene = mirror_scene(WaterStyle::Stylised, Some(eye(20.0)));
    assert!(mirror.drive_reflection(&mut data, &dark(), &scene, &vec![None]).is_none());
    assert_eq!(mirror.held, None);
}

/// The clip follows the lowest water on screen no further than it may drop.
#[test]
fn the_clip_drops_no_further_than_it_may() {
    let camera = || flat_eye(v3(0.0, 20.0, 0.0), v3(0.0, -0.2, -1.0), v3(0.0, 1.0, 0.0), None);
    let body = |z: f32, x: f32| {
        Some(Sounding {
            wet: Wet { z: R(z), d2: R(x * x), at: v2(x, 0.0) },
            near: true,
            ahead: true,
            area: R(1000.0),
        })
    };
    // World +x is straight ahead of this camera.
    let water = vec![body(10.0, 40.0), body(2.0, 80.0)];
    let mut data = WaterReflectData::new();
    let mut scene = mirror_scene(WaterStyle::Stylised, Some(camera()));
    let pose = Mirror::new().drive_reflection(&mut data, &dark(), &scene, &water).expect("on");
    assert_eq!(data.mirror.x, R(10.0));
    assert_eq!(pose.clip, R(0.0 - 9.75));
    scene.drop = R(12.0);
    let pose = Mirror::new().drive_reflection(&mut data, &dark(), &scene, &water).expect("on");
    assert_eq!(pose.clip, R(0.0 - 1.75));
    scene.drop = R(5.0);
    let pose = Mirror::new().drive_reflection(&mut data, &dark(), &scene, &water).expect("on");
    assert_eq!(pose.clip, R(0.0 - 4.75));
}

/// Water ahead outranks nearer water that is not on screen; with nothing on screen the nearest is
/// taken; and water above the eye is never ranked.
#[test]
fn the_plane_is_the_water_in_view() {
    let eye = v3(0.0, 20.0, 0.0);
    let ahead = frame(v3(0.0, -0.2, -1.0));
    let reach = R(700.0);
    // World +x is straight ahead of this camera.
    let body = |z: f32, x: f32, near: bool| {
        Some(Sounding {
            wet: Wet { z: R(z), d2: R(x * x), at: v2(x, 0.0) },
            near,
            ahead: x >= -5.0,
            area: R(1000.0),
        })
    };
    let water = vec![body(3.0, -5.0, true), body(10.0, 300.0, false)];
    assert!(can_rank(&water, eye, &ahead, reach));
    let plane = plane_near(&water, eye, &ahead, reach, None).expect("a plane");
    assert_eq!((plane.plane, plane.lowest), (R(10.0), R(10.0)));

    // None of these is on screen; each reaches ahead of the eye from where its sample is.
    let around = vec![body(3.0, -5.0, true), body(4.0, -4.0, true), body(5.0, -1.0, false)];
    let plane = plane_near(&around, eye, &ahead, reach, Some(R(3.0))).expect("a plane");
    assert_eq!(plane.plane, R(4.0), "the nearest of those near enough");

    let behind = vec![body(3.0, -50.0, true), body(4.0, -60.0, true)];
    assert!(plane_near(&behind, eye, &ahead, reach, None).is_none());
    assert!(plane_near(&behind, eye, &ahead, reach, Some(R(3.0))).is_none());
    let both = vec![body(3.0, -50.0, true), body(2.0, -4.0, true), body(4.0, -60.0, true)];
    let plane = plane_near(&both, eye, &ahead, reach, None).expect("a plane");
    assert_eq!(plane.plane, R(2.0), "only the one ahead");

    let above = vec![body(30.0, 100.0, false)];
    assert!(plane_near(&above, eye, &ahead, reach, None).is_none());
    let too_far = vec![body(0.0, 800.0, false)];
    assert!(plane_near(&too_far, eye, &ahead, reach, None).is_none());
    assert!(plane_near(&vec![None, None], eye, &ahead, reach, None).is_none());
}

/// A puddle with no share of the screen does not lower the clip.
#[test]
fn only_a_real_share_of_the_screen_lowers_the_clip() {
    let eye = v3(0.0, 20.0, 0.0);
    let ahead = frame(v3(0.0, -0.2, -1.0));
    let body = |z: f32, area: f32| {
        Some(Sounding {
            wet: Wet { z: R(z), d2: R(1.0), at: v2(100.0, 0.0) },
            near: false,
            ahead: true,
            area: R(area),
        })
    };
    let plane = plane_near(&vec![body(10.0, 1000.0), body(2.0, 50.0)], eye, &ahead, R(700.0), None);
    assert_eq!(plane.expect("a plane").lowest, R(10.0));
    let plane = plane_near(&vec![body(10.0, 1000.0), body(2.0, 200.0)], eye, &ahead, R(700.0), None);
    assert_eq!(plane.expect("a plane").lowest, R(2.0));
}

/// Heights that compare to nothing are found out before they are ranked.
#[test]
fn a_view_of_nothing_but_numbers_can_be_ranked() {
    let eye = v3(0.0, 20.0, 0.0);
    let ahead = frame(v3(0.0, -0.2, -1.0));
    let body = |z: f32| {
        Some(Sounding {
            wet: Wet { z: R(z), d2: R(1.0), at: v2(100.0, 0.0) },
            near: false,
            ahead: true,
            area: R(1.0),
        })
    };
    let mut water: Vec<Option<Sounding<R>>> = (0..20).map(|i| body(-(i as f32))).collect();
    assert!(can_rank(&water, eye, &ahead, R(700.0)));
    // Below the eye and infinitely far from every other height, but not in frame.
    water.push(body(f32::NEG_INFINITY));
    assert!(can_rank(&water, eye, &ahead, R(700.0)));
}

/// Only surfaces within reach are sounded, and only near ones are given the lattice.
#[test]
fn a_survey_sounds_what_is_within_reach() {
    let pool = elled_chunk(7.0);
    let at = |x: f32, y: f32| -> Option<Bounds<R>> {
        Some(Bounds { min: v2(x, y), max: v2(x + 20.0, y + 20.0) })
    };
    // World x runs against the scene's third axis, so an eye at z = -1, x = -1 is over (1, 1).
    let eye = v3(-1.0, 30.0, -1.0);
    let footprints = vec![at(0.0, 0.0), None, at(200.0, 0.0), at(600.0, 0.0)];
    let probe = |chunk: usize, p: Vec2<R>| {
        let x = p.x.0 - footprints[chunk].expect("asked only of surfaces with one").min.x.0;
        pool.surface_z_at(x, p.y.0).map(R)
    };
    let level = v3(0.0, 0.0, -1.0);
    let found = survey_surfaces(&probe, &footprints, eye, level, R(500.0));
    assert_eq!(found.len(), 4);
    let near = found[0].expect("beside the eye");
    assert!(near.near && near.ahead);
    assert_eq!((near.wet.z, near.wet.d2, near.area), (R(7.0), R(82.0), R(400.0)));
    assert!(found[1].is_none(), "no footprint");
    assert!(found[2].is_none(), "a far surface whose near point is dry is given no lattice");
    assert!(found[3].is_none(), "out of reach");
}

/// Water wholly behind the camera is no plane. Water underfoot is one on a level view, though its
/// sample has no depth, and so is water that only reaches ahead with a far corner.
#[test]
fn a_camera_with_its_back_to_the_water_mirrors_nothing() {
    let eye = v3(0.0, 20.0, 0.0);
    let level = v3(0.0, 0.0, -1.0);
    let seen = frame(level);
    let reach = R(700.0);
    let square = |x: f32, y: f32, side: f32| Bounds { min: v2(x, y), max: v2(x + side, y + side) };
    let plane = |b: Bounds<R>, forward: Vec3<R>| {
        let wet = |_chunk: usize, _p: Vec2<R>| Some(R(3.0));
        let found = survey_surfaces(&wet, &vec![Some(b)], eye, forward, reach);
        assert!(found[0].expect("within reach").near);
        assert_eq!(found[0].expect("within reach").ahead, is_ahead(b, R(3.0), eye, forward));
        plane_near(&found, eye, &seen, reach, None).map(|p| p.plane.0)
    };
    // Fifty yards behind, whole.
    assert!(!is_ahead(square(-70.0, -10.0, 20.0), R(3.0), eye, level));
    assert_eq!(plane(square(-70.0, -10.0, 20.0), level), None);
    assert_eq!(plane(square(-10.0, -10.0, 20.0), level), Some(3.0), "under the eye");
    assert_eq!(plane(square(-10.0, -10.0, 10.0), level), Some(3.0), "under the eye, none ahead of it");
    assert_eq!(plane(square(-15.0, 5.0, 20.0), level), Some(3.0), "a corner ahead");
    // Looking straight down, water below the eye is ahead wherever it is, and never straight up.
    assert!(is_ahead(square(-70.0, -10.0, 20.0), R(3.0), eye, v3(0.0, -1.0, 0.0)));
    assert!(!is_ahead(square(-70.0, -10.0, 20.0), R(3.0), eye, v3(0.0, 1.0, 0.0)));
}

#[test]
fn the_levers_have_their_defaults_and_their_limits() {
    assert_eq!(look_reach(R(717.0)), R(717.0));
    assert_eq!(look_reach(R(50.0)), R(120.0));
    assert_eq!(mirror_far::<R>(None), R(500.0));
    assert_eq!(mirror_far(Some(R(250.0))), R(250.0));
    assert_eq!(mirror_far(Some(R(0.0))), R(500.0));
    assert_eq!(mirror_far(Some(R(-3.0))), R(500.0));
    assert_eq!(mirror_far(Some(R(f32::NAN))), R(500.0));
    assert_eq!(reflect_downscale(None), 2);
    assert_eq!(reflect_downscale(Some(0)), 1);
    assert_eq!(reflect_downscale(Some(3)), 3);
    assert_eq!(reflect_downscale(Some(99)), 8);
    assert_eq!(clip_drop::<R>(None), R(0.0));
    assert_eq!(clip_drop(Some(R(12.0))), R(12.0));
    assert_eq!(aspect_of::<R>(None), R(16.0 / 9.0));
    assert_eq!(aspect_of::<R>(Some((800, 0))), R(800.0));
    assert_eq!(picture_side(0), 1);
    assert_eq!(picture_side(640), 640);
}

#[test]
fn the_layers_are_apart() {
    assert_eq!(world_camera_layers(), vec![0, 30, 31]);
    assert_ne!(WATER_RENDER_LAYER, UNMIRRORED_RENDER_LAYER);
}

/// The sky's lanes are written whatever the mirror does, and the wake's are left alone.
#[test]
fn the_sky_is_taken_in() {
    let mut data = WaterReflectData::new();
    data.wake = Vec4 { x: R(1.0), y: R(2.0), z: R(3.0), w: R(4.0) };
    let mut sky = Sky {
        to_sun: v3(0.0, 2.0, 0.0),
        sun_visible: R(0.5),
        to_moon: v3(0.0, 0.0, 0.0),
        moon_visible: R(0.25),
        zenith: v3(0.1, 0.2, 0.3),
        horizon: v3(0.4, 0.5, 0.6),
        show_scene: false,
        show_depth: true,
        show_tilt: false,
    };
    data.take_sky(&sky);
    let floats: Vec<f32> = data.floats().iter().map(|v| v.0).collect();
    assert_eq!(
        floats,
        vec![
            0.0, 0.0, 0.0, 0.0, 0.0, 1.0, 0.0, 0.5, 0.1, 0.2, 0.3, 1.0, 0.4, 0.5, 0.6, 0.0, 1.0, 2.0,
            3.0, 4.0, 0.0, 0.0, 0.0, 0.25
        ]
    );
    sky.show_scene = true;
    data.take_sky(&sky);
    assert_eq!(data.moon.w, R(2.0));
}

/// The sky's lanes are written on every path: while the mirror draws, while it is off, and without a
/// mirrored camera, which leaves the mirror's own lanes as they were.
#[test]
fn the_sky_is_taken_in_on_every_path() {
    let eye = || flat_eye(v3(0.0, 20.0, 0.0), v3(0.0, 0.0, -1.0), v3(0.0, 1.0, 0.0), None);
    let sky = |v: f32| Sky { sun_visible: R(v), zenith: v3(v, v, v), ..dark() };
    let mut data = WaterReflectData::new();
    let mut mirror = Mirror::new();
    let mut scene = mirror_scene(WaterStyle::Stylised, Some(eye()));
    assert!(mirror.drive_reflection(&mut data, &sky(0.1), &scene, &beside(12.0)).is_some());
    assert_eq!((data.sun.w, data.zenith.x, data.mirror.x), (R(0.1), R(0.1), R(12.0)));
    scene.present = false;
    assert!(mirror.drive_reflection(&mut data, &sky(0.2), &scene, &beside(3.0)).is_none());
    assert_eq!((data.sun.w, data.zenith.x, data.mirror.x), (R(0.2), R(0.2), R(12.0)));
    assert_eq!(mirror.held, Some(R(12.0)));
    scene.present = true;
    scene.disabled = true;
    assert!(mirror.drive_reflection(&mut data, &sky(0.3), &scene, &beside(3.0)).is_none());
    assert_eq!((data.sun.w, data.zenith.x, data.mirror.x), (R(0.3), R(0.3), R(0.0)));
}

/// The plane chosen is kept while the scores are as they are.
#[test]
fn a_choice_made_again_is_the_same() {
    let mut seen = Prominence::new();
    for (z, score) in [(0.0, 4.0), (0.4, 1.0), (10.0, 7.0), (10.6, 6.0), (3.0, 0.0)] {
        seen.add(R(z), R(score));
    }
    assert_eq!(seen.used(), 3);
    for held in [None, Some(0.0), Some(0.5), Some(10.0), Some(10.55), Some(40.0)] {
        let first = seen.best_sticky(held.map(R));
        assert_eq!(seen.best_sticky(first), first);
    }
}

#[test]
fn the_prepass_is_on_unless_it_is_explicitly_switched_off() {
    assert!(depth_enabled(None), "the default is armed");
    assert!(depth_enabled(Some("1")), "the historical =1 still means on");
    assert!(!depth_enabled(Some("0")), "and 0 is the way back to the authored byte");
    assert!(depth_enabled(Some("")));
    assert!(depth_enabled(Some("00")));
}

#[test]
fn the_prepass_is_attached_and_detached_once() {
    use_change(WaterStyle::Stylised, true, false, PrepassChange::Attach);
    use_change(WaterStyle::Stylised, true, true, PrepassChange::Keep);
    use_change(WaterStyle::Stylised, false, true, PrepassChange::Detach);
    use_change(WaterStyle::Reference, true, true, PrepassChange::Detach);
    use_change(WaterStyle::Reference, true, false, PrepassChange::Keep);
}

fn use_change(style: WaterStyle, enabled: bool, has: bool, change: PrepassChange) {
    assert_eq!(maintain_depth_prepass(style, enabled, has), change);
}

#[test]
fn a_snapshot_follows_the_view() {
    let mut snap = WaterSceneColor::new();
    assert_eq!(snap, WaterSceneColor { width: 64, height: 64, armed: false });
    assert!(snap.drive_scene_color(WaterStyle::Stylised, Some(Some((1920, 10)))));
    assert_eq!(snap, WaterSceneColor { width: 1920, height: 64, armed: true });
    assert!(!snap.drive_scene_color(WaterStyle::Reference, Some(None)));
    assert!(!snap.drive_scene_color(WaterStyle::Stylised, None));
    assert!(!snap.drive_scene_color(WaterStyle::Stylised, Some(Some((1920, 64)))));
    assert!(snap.copies(Some((1920, 64)), Some((1920, 64))));
    assert!(!snap.copies(Some((1920, 64)), Some((1920, 65))));
    assert!(!snap.copies(None, None));
    snap.drive_scene_color(WaterStyle::Reference, None);
    assert!(!snap.copies(Some((1920, 64)), Some((1920, 64))));
}
