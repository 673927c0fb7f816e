use benilla_liquid::fixed::Fixed;
use benilla_liquid::geometry::{Vec2, Vec3, Vec4};
use benilla_liquid::ripple::{
    halve, height_field, ripple_map, tileable_perlin, CHAIN_BYTES, RIPPLE_SEED, SIZE,
};
use benilla_liquid::ripple_sim::{
    blank_pixels, cell_pitch, encode, flat_pixels, timestep, wave_speed_squared, window_yards,
    RippleSim, SIM_AREA, SIM_CELLS,
};
use benilla_liquid::scalar::Scalar;
use benilla_liquid::style::WaterStyle;
use benilla_liquid::wake::{depth_over, drive_ripple_sim, Body, Wake, WakeScene};

/// Single precision numbers, as the renderer has them.
#[derive(Clone, Copy, Debug, PartialEq, PartialOrd)]
struct R(f32);

impl Scalar for R {
    fn plus(self, other: Self) -> Self {
        R(self.0 + other.0)
    }
    fn minus(self, other: Self) -> Self {
        R(self.0 - other.0)
    }
    fn times(self, other: Self) -> Self {
        R(self.0 * other.0)
    }
    fn over(self, other: Self) -> Self {
        R(self.0 / other.0)
    }
    fn negated(self) -> Self {
        R(-self.0)
    }
    fn less(self, other: Self) -> bool {
        self.0 < other.0
    }
    fn at_most(self, other: Self) -> bool {
        self.0 <= other.0
    }
    fn ratio(num: i64, den: u64) -> Self {
        R((num as f64 / den as f64) as f32)
    }
    fn largest() -> Self {
        R(f32::MAX)
    }
    fn absolute(self) -> Self {
        R(self.0.abs())
    }
    fn floor(self) -> Self {
        R(self.0.floor())
    }
    fn ceil(self) -> Self {
        R(self.0.ceil())
    }
    fn round(self) -> Self {
        R(self.0.round())
    }
    fn sqrt(self) -> Self {
        R(self.0.sqrt())
    }
    fn least(self, other: Self) -> Self {
        R(self.0.min(other.0))
    }
    fn greatest(self, other: Self) -> Self {
        R(self.0.max(other.0))
    }
    fn is_finite(self) -> bool {
        self.0.is_finite()
    }
    fn to_i32(self) -> i32 {
        self.0 as i32
    }
    fn to_index(self) -> usize {
        self.0 as usize
    }
    fn to_byte(self) -> u8 {
        self.0 as u8
    }
}

fn v2(x: f32, y: f32) -> Vec2<R> {
    Vec2 { x: R(x), y: R(y) }
}

fn cosine(angle: R) -> R {
    R(angle.0.cos())
}

const SIM_YARDS: f32 = 48.0;

fn sim() -> RippleSim<R> {
    RippleSim::new()
}

fn push(s: &mut RippleSim<R>, at: Vec2<R>, radius: f32, amount: f32) {
    s.push(at, R(radius), R(amount), &cosine);
}

#[test]
fn the_integrator_stays_bounded_under_a_hammering() {
    let mut s = sim();
    s.placed = true;
    for i in 0..2000 {
        let t = i as f32 * timestep::<R>().0;
        push(&mut s, v2(24.0 + t, 24.0), 0.8, 0.05);
        s.step();
    }
    assert!(
        s.h.iter().all(|v| v.0.is_finite() && v.0.abs() < 10.0),
        "the wave field left its stable region"
    );
}

#[test]
fn a_push_travels_at_the_wave_speed() {
    let mut s = sim();
    s.placed = true;
    let mid = SIM_CELLS / 2;
    push(&mut s, v2(SIM_YARDS * 0.5, SIM_YARDS * 0.5), 0.5, 1.0);
    let at = |s: &RippleSim<R>, cells: usize| s.h[mid * SIM_CELLS + mid + cells].0.abs();

    let (cell, dt) = (cell_pitch::<R>().0, timestep::<R>().0);
    let speed = wave_speed_squared::<R>().0.sqrt() * cell / dt;
    let seconds = 2.0_f32;
    let front = (speed * seconds / cell) as usize;
    assert!(front > 4, "the front must clear the source to be measurable");

    assert!(at(&s, front) < 1e-6, "arrived before a single step ran");
    for _ in 0..(seconds / dt) as usize {
        s.step();
    }
    let behind = at(&s, front / 2);
    assert!(behind > 1e-4, "nothing behind the front: the wave is not propagating");
    assert!(
        at(&s, front * 2) < behind * 0.1,
        "energy well ahead of where the wave speed allows: it is not obeying c"
    );
}

#[test]
fn scrolling_the_window_keeps_features_at_their_world_position() {
    let mut s = sim();
    s.recentre(v2(SIM_YARDS * 0.5, SIM_YARDS * 0.5));
    let at = v2(SIM_YARDS * 0.5 + 4.0, SIM_YARDS * 0.5);
    push(&mut s, at, 0.5, 1.0);
    let sample = |s: &RippleSim<R>, p: Vec2<R>| {
        let c = p.minus(s.corner()).shrink(cell_pitch());
        s.h[c.y.0 as usize * SIM_CELLS + c.x.0 as usize].0
    };
    let before = sample(&s, at);
    assert!(before.abs() > 0.1, "the push did not land");
    s.recentre(v2(SIM_YARDS * 0.5 + 5.0, SIM_YARDS * 0.5 + 3.0));
    assert!(
        (sample(&s, at) - before).abs() < 1e-6,
        "the field did not travel with the window"
    );
}

#[test]
fn a_jump_past_the_window_clears_the_field() {
    let mut s = sim();
    s.recentre(v2(SIM_YARDS * 0.5, SIM_YARDS * 0.5));
    push(&mut s, v2(SIM_YARDS * 0.5, SIM_YARDS * 0.5), 1.0, 1.0);
    assert!(s.h.iter().any(|v| v.0.abs() > 0.1));
    s.recentre(v2(SIM_YARDS * 0.5 + 4000.0, SIM_YARDS * 0.5 + 4000.0));
    assert!(
        s.h.iter().all(|v| v.0 == 0.0),
        "a teleport carried the old water with it"
    );
}

/// A window moved away and back, in every direction, shows what never left it as it was.
#[test]
fn a_scroll_is_undone_by_its_opposite() {
    for (dx, dy) in [(3.0, 5.0), (-3.0, 5.0), (3.0, -5.0), (-3.0, -5.0), (0.0, 7.0), (7.0, 0.0)] {
        let mut s = sim();
        s.recentre(v2(0.0, 0.0));
        push(&mut s, v2(0.3, -0.4), 2.0, 1.0);
        let before: Vec<f32> = s.h.iter().map(|v| v.0).collect();
        s.recentre(v2(dx, dy));
        assert_ne!(before, s.h.iter().map(|v| v.0).collect::<Vec<f32>>());
        s.recentre(v2(0.0, 0.0));
        assert_eq!(before, s.h.iter().map(|v| v.0).collect::<Vec<f32>>());
    }
}

/// Cells are a quarter of a yard, and the window's middle is where it was put.
#[test]
fn a_window_is_placed_in_whole_cells() {
    let mut s = sim();
    assert!(!s.placed);
    s.recentre(v2(24.1, -10.0));
    assert!(s.placed);
    assert_eq!((s.origin_x, s.origin_y), (96 - 96, -40 - 96));
    assert_eq!(s.corner(), v2(0.0, -34.0));
    assert_eq!(cell_pitch::<R>(), R(0.25));
    assert_eq!(window_yards::<R>(), R(48.0));
}

/// The rim takes the most from the outermost cell that moves, and nothing from the inner edge of its
/// band on.
#[test]
fn the_rim_absorbs_from_its_outermost_cell_on() {
    for (x, keep) in [(1, 0.72), (2, 0.72 + 0.28 / 13.0), (13, 0.72 + 0.28 * 12.0 / 13.0), (14, 1.0)] {
        for k in [96 * SIM_CELLS + x, 96 * SIM_CELLS + SIM_CELLS - 1 - x, x * SIM_CELLS + 96] {
            let mut s = sim();
            s.h[k] = R(1.0);
            s.step();
            let want = (2.0 - 0.004) * 0.9955 * keep;
            assert!((s.h[k].0 - want).abs() < 1e-5, "{} of {x}, not {want}", s.h[k].0);
        }
    }
    let mut exact = RippleSim::<Fixed>::new();
    exact.h[96 * SIM_CELLS + 1] = Fixed::ratio(1, 1);
    exact.step();
    let kept = exact.h[96 * SIM_CELLS + 1].raw as f64 / 4294967296.0;
    assert!((kept - 1.99600 * 0.9955 * 0.72).abs() < 1e-8);
}

/// A field within a yard stays within forty thousand, and in truth within a few.
#[test]
fn exact_waves_stay_bounded() {
    let mut s = RippleSim::<Fixed>::new();
    for k in 0..SIM_AREA {
        let sign = if k % 7 < 3 { 1 } else { -1 };
        s.h[k] = Fixed::ratio(sign, 1);
        s.prev[k] = Fixed::ratio(-sign, 1);
    }
    for n in 1..=40_i128 {
        s.step();
        let b = 1_i128 << 32;
        for v in &s.h {
            let square = v.raw as i128 * v.raw as i128;
            assert!(square <= 100_000_000 * (16 * b * b + 200 * n));
            assert!(square <= (100 * b) * (100 * b));
        }
    }
}

/// In exact numbers too: a field hammered at before every step, its rim with it, is moved by no more
/// than each push's amount, and stays within what so many pushes allow.
#[test]
fn exact_waves_stay_bounded_under_a_hammering() {
    let mut s = RippleSim::<Fixed>::new();
    let turn = |angle: Fixed| Fixed {
        raw: ((angle.raw as f64 / 4294967296.0).cos() * 4294967296.0) as i64,
    };
    let amount = Fixed::ratio(1, 20);
    let corner = s.corner();
    for i in 0..60_i64 {
        let before: Vec<i64> = s.h.iter().map(|v| v.raw).collect();
        let at = Vec2 {
            x: corner.x.plus(Fixed::ratio(i % 3, 10)),
            y: corner.y.plus(Fixed::ratio(8, 10)),
        };
        s.push(at, Fixed::ratio(8, 10), amount, &turn);
        assert!(s.h.iter().zip(&before).all(|(v, was)| (v.raw - was).abs() <= amount.raw));
        s.step();
        let most = 22 * (431 + (i + 1) * (212 * amount.raw + 6313));
        assert!(s.h.iter().all(|v| v.raw.abs() <= most));
    }
    assert!(s.h.iter().any(|v| v.raw.abs() > amount.raw), "the pushes add up");
    assert!(s.h[..SIM_CELLS].iter().all(|v| v.raw == 0), "the rim is at rest after a step");
}

/// The first surface that is wet over a point says how deep it is.
#[test]
fn the_first_wet_surface_says_how_deep_it_is() {
    let heights = [None, Some(R(5.0)), Some(R(9.0))];
    assert_eq!(depth_over(&|k: usize| heights[k], 3, R(3.5)), Some(R(1.5)));
    assert_eq!(depth_over(&|k: usize| heights[k], 1, R(3.5)), None);
    assert_eq!(depth_over(&|k: usize| heights[k], 0, R(3.5)), None);
}

/// A window follows its centre as far as its cells can be counted, and no further.
#[test]
fn a_window_knows_how_far_it_reaches() {
    let mut s = RippleSim::<R>::new();
    assert!(s.can_reach(v2(0.0, 0.0)));
    assert!(s.can_reach(v2(5.0e8, 5.0e8)));
    assert!(!s.can_reach(v2(-6.0e8, 0.0)), "its corner is past the first cell there is");
    assert!(!s.can_reach(v2(0.0, -6.0e8)));
    s.recentre(v2(-5.0e8, 0.0));
    assert!(s.can_reach(v2(-4.0e8, 0.0)));
    assert!(!s.can_reach(v2(5.0e8, 0.0)), "too many cells lie between");
}

/// One cell pushed, one step: the cell keeps twice its height less what leaks, its neighbours take
/// the leak, and nothing further off has heard of it.
#[test]
fn a_step_reaches_one_cell() {
    let mut s = sim();
    let mid = 96 * SIM_CELLS + 96;
    s.h[mid] = R(1.0);
    s.prev[mid] = R(1.0);
    s.step();
    let (c2, damp) = (0.001_f32, 0.9955_f32);
    assert_eq!(s.h[mid].0, ((2.0 - 1.0) + c2 * -4.0) * damp);
    for near in [mid - 1, mid + 1, mid - SIM_CELLS, mid + SIM_CELLS] {
        assert_eq!(s.h[near].0, c2 * damp);
    }
    assert_eq!(s.h.iter().filter(|v| v.0 != 0.0).count(), 5);
    assert_eq!(s.prev[mid], R(1.0));
    let (tall, bent) = s.peaks();
    assert_eq!(tall, s.h[mid]);
    assert!((bent.0 - 4.0 * (s.h[mid].0 - s.h[mid + 1].0)).abs() < 1e-5);
}

/// The rim never carries anything, whatever was put there.
#[test]
fn the_rim_is_at_rest_after_a_step() {
    let mut s = sim();
    for v in s.h.iter_mut() {
        *v = R(1.0);
    }
    s.step();
    for k in 0..SIM_CELLS {
        assert_eq!(s.h[k], R(0.0));
        assert_eq!(s.h[k * SIM_CELLS], R(0.0));
        assert_eq!(s.h[(SIM_CELLS - 1) * SIM_CELLS + k], R(0.0));
        assert_eq!(s.h[k * SIM_CELLS + SIM_CELLS - 1], R(0.0));
    }
    assert!(s.h[96 * SIM_CELLS + 96].0 > 1.9);
    // The outermost live cells lose the most.
    assert!(s.h[96 * SIM_CELLS + 1].0 < s.h[96 * SIM_CELLS + 8].0);
    assert!(s.h[96 * SIM_CELLS + 8].0 < s.h[96 * SIM_CELLS + 14].0);
}

#[test]
fn water_at_rest_stays_at_rest() {
    let mut s = sim();
    for _ in 0..5 {
        s.step();
    }
    assert!(s.h.iter().all(|v| v.0 == 0.0));

    let mut exact: RippleSim<Fixed> = RippleSim::new();
    exact.step();
    assert!(exact.h.iter().all(|v| v.raw == 0));
}

/// Two disturbances far apart run on as the sum of the two.
#[test]
fn wakes_add_where_they_cross() {
    let (mut a, mut b, mut both) = (sim(), sim(), sim());
    push(&mut a, v2(20.0, 24.0), 0.5, 1.0);
    push(&mut b, v2(21.0, 24.0), 0.5, 1.0);
    push(&mut both, v2(20.0, 24.0), 0.5, 1.0);
    push(&mut both, v2(21.0, 24.0), 0.5, 1.0);
    for _ in 0..60 {
        a.step();
        b.step();
        both.step();
    }
    for k in 0..SIM_AREA {
        assert!((a.h[k].0 + b.h[k].0 - both.h[k].0).abs() < 1e-4);
    }
}

/// A push is a raised cosine: all of it at the middle, nothing at the edge, and nothing outside.
#[test]
fn a_push_is_a_raised_cosine() {
    let mut s = sim();
    // The middle of a cell, and a radius of eight cells.
    push(&mut s, v2(24.125, 24.125), 2.0, 1.0);
    let mid = 96 * SIM_CELLS + 96;
    assert_eq!(s.h[mid], R(-1.0));
    let quarter = 0.5 * (1.0 + (std::f32::consts::PI * 0.5).cos());
    assert!((s.h[mid + 4].0 + quarter).abs() < 1e-6);
    assert!(s.h[mid + 8].0.abs() < 1e-6);
    assert_eq!(s.h[mid + 9], R(0.0));
    // A disc outside the window touches nothing, and one half outside only what is in it.
    let mut s = sim();
    push(&mut s, v2(-100.0, 24.0), 2.0, 1.0);
    push(&mut s, v2(24.0, 400.0), 2.0, 1.0);
    assert!(s.h.iter().all(|v| v.0 == 0.0));
    push(&mut s, v2(0.0, 0.0), 1.0, 1.0);
    assert!(s.h[0].0 < -0.8);
}

/// Whole steps are run, at most four, and the budget spent the rest of the time is forgotten.
#[test]
fn a_frame_runs_whole_steps() {
    let dt = timestep::<R>().0;
    let mut s = sim();
    assert_eq!(s.advance(R(dt * 0.5)), 0);
    assert_eq!(s.accum.0, dt * 0.5);
    assert_eq!(s.advance(R(dt)), 1);
    assert!((s.accum.0 - dt * 0.5).abs() < 1e-6);
    assert_eq!(s.advance(R(dt * 2.0)), 2);
    assert_eq!(s.advance(R(0.25)), 4);
    assert_eq!(s.accum, R(0.0));
}

/// The texture: slopes across and along, the height, and a full last channel.
#[test]
fn a_field_is_encoded() {
    let mut s = sim();
    let mid = 96 * SIM_CELLS + 96;
    s.h[mid] = R(0.25);
    let mut data = blank_pixels();
    encode(&s.h, &mut data);
    let texel = |k: usize| &data[4 * k..4 * k + 4];
    // Rest is the byte below the middle: a half of 255, cut.
    assert_eq!(texel(0), [127, 127, 127, 255]);
    // Height doubled, around the middle: (0.5 * 0.5 + 0.5) * 255.
    assert_eq!(texel(mid), [127, 127, 191, 255]);
    // A quarter up over half a yard, by the slope scale: 0.25 * 2 * 1.7 = 0.85.
    let up = ((0.85 * 0.5 + 0.5) * 255.0) as u8;
    let down = ((-0.85 * 0.5 + 0.5) * 255.0) as u8;
    assert_eq!(texel(mid - 1)[0], up);
    assert_eq!(texel(mid + 1)[0], down);
    assert_eq!(texel(mid - SIM_CELLS)[1], up);
    assert_eq!(texel(mid + SIM_CELLS)[1], down);
    // Past the byte's range it is cut.
    s.h[mid] = R(100.0);
    encode(&s.h, &mut data);
    assert_eq!(data[4 * (mid - 1)], 255);
    assert_eq!(data[4 * (mid + 1)], 0);
    let flat = flat_pixels();
    assert_eq!(flat.len(), 4 * SIM_AREA);
    assert_eq!(&flat[4 * mid..4 * mid + 4], [128, 128, 128, 255]);
}

fn v3(x: f32, y: f32, z: f32) -> Vec3<R> {
    Vec3 { x: R(x), y: R(y), z: R(z) }
}

fn body(id: u64, x: f32) -> Body<R> {
    Body { id, at: v3(x, 0.0, 3.0), height: R(2.0), wades: true }
}

fn deep(_at: Vec3<R>) -> Option<R> {
    Some(R(1.0))
}

fn full(_height: R, _depth: R) -> Option<R> {
    Some(R(1.0))
}

/// A ring comes once in seven tenths of a yard, is born ahead of the body, and a body standing
/// still sheds none.
#[test]
fn rings_are_spaced_along_the_path() {
    let mut wake = Wake::new();
    assert!(wake.fire(&body(1, 0.0), &deep, &full).is_none(), "a body met for the first time");
    assert!(wake.fire(&body(1, 0.4), &deep, &full).is_none(), "not yet a stride");
    let ring = wake.fire(&body(1, 0.8), &deep, &full).expect("a stride and more");
    assert!((ring.at.x.0 - (0.8 + 0.55)).abs() < 1e-6);
    assert_eq!(ring.at.y, R(3.0));
    assert_eq!(ring.amount, R(0.030));
    assert!(wake.fire(&body(1, 0.8), &deep, &full).is_none(), "standing still");
    assert!(wake.fire(&body(1, 0.8005), &deep, &full).is_none(), "jitter is standing still");
    // A stall of six strides sheds one ring, and banks no more than one.
    assert!(wake.fire(&body(1, 5.0), &deep, &full).is_some());
    assert!(wake.fire(&body(1, 5.01), &deep, &full).is_some());
    assert!(wake.fire(&body(1, 5.02), &deep, &full).is_none());
}

/// Bodies are told apart, and each remembers its own travel.
#[test]
fn every_body_has_its_own_credit() {
    let mut wake = Wake::new();
    for id in [1, 2, 0x1_0000_0001] {
        assert!(wake.fire(&body(id, 0.0), &deep, &full).is_none());
    }
    assert!(wake.fire(&body(1, 0.5), &deep, &full).is_none());
    assert!(wake.fire(&body(2, 0.8), &deep, &full).is_some());
    assert!(wake.fire(&body(0x1_0000_0001, 0.5), &deep, &full).is_none());
    assert!(wake.fire(&body(1, 0.8), &deep, &full).is_some());
}

/// No water, shallow water, and water over the head all take the ring away, but not its cost.
#[test]
fn a_ring_needs_water() {
    let dry = |_: Vec3<R>| None;
    let shallow = |_: Vec3<R>| Some(R(0.3));
    let under = |_: R, _: R| None;
    let half = |_: R, _: R| Some(R(0.5));
    let mut wake = Wake::new();
    wake.fire(&body(1, 0.0), &deep, &full);
    assert!(wake.fire(&body(1, 0.8), &dry, &full).is_none());
    assert!(wake.fire(&body(1, 1.6), &shallow, &full).is_none());
    assert!(wake.fire(&body(1, 2.4), &deep, &under).is_none());
    let ring = wake.fire(&body(1, 3.2), &deep, &half).expect("half as strong");
    assert_eq!(ring.amount, R(0.030 * 0.5));
}

fn scene(x: f32, units: Vec<Body<R>>, dt: f32) -> WakeScene<R> {
    WakeScene {
        style: WaterStyle::Stylised,
        avatar: Some(body(1, x)),
        camera: None,
        units,
        dt: R(dt),
        show: false,
    }
}

#[test]
fn a_frame_moves_the_water() {
    let (mut s, mut wake) = (sim(), Wake::new());
    let dt = timestep::<R>().0;
    let frame = drive_ripple_sim(&mut s, &mut wake, &scene(0.0, vec![], dt), &deep, &full, &cosine);
    assert_eq!(frame.window, Vec4 { x: R(-24.0), y: R(-21.0), z: R(1.0 / 48.0), w: R(1.0) });
    assert!(frame.pixels.is_some());
    assert!(s.h.iter().all(|v| v.0 == 0.0), "nothing has moved yet");

    let frame = drive_ripple_sim(&mut s, &mut wake, &scene(0.8, vec![], dt), &deep, &full, &cosine);
    assert!(s.h.iter().any(|v| v.0 < 0.0), "the swimmer struck a ring");
    let pixels = frame.pixels.expect("the field moved");
    let mut expected = blank_pixels();
    encode(&s.h, &mut expected);
    assert_eq!(pixels, expected);
    assert!(s.pixels.iter().all(|b| *b == 0), "a fresh texture is staged");

    // Too short a frame for a step hands nothing over, but the window still follows.
    let mut next = scene(1.8, vec![], 0.0);
    next.show = true;
    let frame = drive_ripple_sim(&mut s, &mut wake, &next, &deep, &full, &cosine);
    assert!(frame.pixels.is_none());
    assert_eq!(frame.window.w, R(2.0));
    assert_eq!(frame.window.x, R(-22.25));
}

#[test]
fn a_frame_on_the_reference_look_leaves_the_water_alone() {
    let (mut s, mut wake) = (sim(), Wake::new());
    let mut quiet = scene(5.0, vec![body(2, 0.0)], 0.1);
    quiet.style = WaterStyle::Reference;
    let frame = drive_ripple_sim(&mut s, &mut wake, &quiet, &deep, &full, &cosine);
    assert_eq!(frame.window, Vec4 { x: R(0.0), y: R(0.0), z: R(0.0), w: R(0.0) });
    assert!(frame.pixels.is_none());
    assert!(!s.placed);
    let mut nobody = scene(5.0, vec![], 0.1);
    nobody.avatar = None;
    let frame = drive_ripple_sim(&mut s, &mut wake, &nobody, &deep, &full, &cosine);
    assert_eq!(frame.window.z, R(0.0));
    nobody.camera = Some(v3(100.0, 50.0, 0.0));
    let frame = drive_ripple_sim(&mut s, &mut wake, &nobody, &deep, &full, &cosine);
    assert_eq!(frame.window.x, R(76.0), "without a body the window follows the camera");
}

/// A body that does not wade is not taken in, and one that has gone is forgotten: met again far
/// off, it is new.
#[test]
fn a_body_that_is_gone_is_forgotten() {
    let (mut s, mut wake) = (sim(), Wake::new());
    let run = |s: &mut RippleSim<R>, wake: &mut Wake<R>, units: Vec<Body<R>>| {
        drive_ripple_sim(s, wake, &scene(0.0, units, 0.0), &deep, &full, &cosine);
        s.h.iter().any(|v| v.0 != 0.0)
    };
    assert!(!run(&mut s, &mut wake, vec![body(2, 0.0)]));
    let mut dry = body(2, 1.0);
    dry.wades = false;
    assert!(!run(&mut s, &mut wake, vec![dry]), "it does not wade, and has now gone");
    assert!(!run(&mut s, &mut wake, vec![body(2, 2.0)]), "met again, it has not moved");
    assert!(run(&mut s, &mut wake, vec![body(2, 3.0)]), "now it has");
}

#[test]
fn perlin_tiles() {
    for i in 0..16 {
        let p = v2(i as f32 * 0.37, i as f32 * 0.11);
        let here = tileable_perlin(p, 8, 1234).0;
        for step in [v2(8.0, 0.0), v2(0.0, 8.0), v2(8.0, 8.0)] {
            let there = tileable_perlin(p.plus(step), 8, 1234).0;
            assert!(
                (here - there).abs() < 1e-5,
                "seam at {p:?} + {step:?}: {here} vs {there}"
            );
        }
    }
}

#[test]
fn mip_chain_is_complete() {
    let map = ripple_map::<R>(7);
    let levels = map.levels;
    assert_eq!(levels, 9, "256 down to 1 is nine levels");
    let expected: usize = (0..levels)
        .map(|l| {
            let n = SIZE >> l;
            n * n * 4
        })
        .sum();
    assert_eq!(map.data.len(), expected);
    assert_eq!(map.data.len(), CHAIN_BYTES);
}

/// Noise is nothing at the lattice's own points, and in exact numbers it tiles exactly, on the near
/// side of nothing as on the far side.
#[test]
fn noise_is_exact_in_exact_numbers() {
    let point = |x: i64, y: i64, den: u64| Vec2 { x: Fixed::ratio(x, den), y: Fixed::ratio(y, den) };
    for seed in [0, 7, 1234] {
        assert_eq!(tileable_perlin(point(3, 5, 1), 8, seed).raw, 0);
        let here = tileable_perlin(point(37, 11, 100), 8, seed);
        assert_eq!(here, tileable_perlin(point(37 - 1600, 11 + 800, 100), 8, seed));
        assert_ne!(here, tileable_perlin(point(37 + 100, 11, 100), 8, seed));
    }
    // One gradient, read off the hash: the middle of a cell of the all-zero lattice of period one
    // is pulled alike from all four corners, and comes to nothing.
    assert_eq!(tileable_perlin(point(1, 1, 2), 1, 0).raw, 0);
}

/// The tallest point of a height field is a half.
#[test]
fn a_height_field_is_scaled_to_a_half() {
    let field = height_field::<R>(7);
    let peak = field.iter().map(|h| h.0.abs()).fold(0.0_f32, f32::max);
    assert!((peak - 0.5).abs() < 1e-6);
}

/// A level one size down is the rounded mean of the four points above, channel by channel.
#[test]
fn a_level_is_halved() {
    let level: Vec<u8> = (0..4 * 4 * 4).map(|i| i as u8).collect();
    let next = halve(&level, 4);
    assert_eq!(next.len(), 2 * 2 * 4);
    // Points 0, 1, 4 and 5, first channel: (0 + 4 + 16 + 20 + 2) / 4.
    assert_eq!(next[0], 10);
    assert_eq!(next[1], 11);
    // The last point's last channel: (43 + 47 + 59 + 63 + 2) / 4.
    assert_eq!(next[15], 53);
    assert_eq!(halve(&vec![200; 4 * 4], 2), vec![200; 4]);
    assert_eq!(halve(&vec![255, 255, 255, 255], 1), Vec::<u8>::new());
}

/// The map's slopes wrap: its first column differs from its last as any two neighbours do.
#[test]
fn the_ripple_map_wraps() {
    let map = ripple_map::<R>(RIPPLE_SEED);
    let field = height_field::<R>(RIPPLE_SEED);
    let byte = |d: f32| ((d * 0.5 + 0.5).clamp(0.0, 1.0) * 255.0) as u8;
    assert_eq!(map.data[0], byte(field[1].0 - field[SIZE - 1].0));
    assert_eq!(map.data[1], byte(field[SIZE].0 - field[(SIZE - 1) * SIZE].0));
    assert_eq!(map.data[2], ((field[0].0 + 0.5).clamp(0.0, 1.0) * 255.0) as u8);
    assert_eq!(map.data[3], 255);
    let last = &map.data[map.data.len() - 4..];
    assert!(last[0] > 110 && last[0] < 145, "averaged all the way down, the water is level");
}
