use benilla_liquid::contour::{march, Sample, Segment};
use benilla_liquid::entity_table::EntityTable;
use benilla_liquid::fixed::Fixed;
use benilla_liquid::geometry::{bevy_to_wow, wow_to_bevy, Vec2, Vec3, Vec4};
use benilla_liquid::liquid_assets::{
    flattens_frames, frame_path, frame_set, loaded_sets, scrolls, setup_liquid, FrameRun,
    LiquidAssets, LiquidKey, LiquidPath, MaterialScene, FRAME_SETS,
};
use benilla_liquid::liquid_mesh::{LiquidKind, LiquidMesh};
use benilla_liquid::scalar::Scalar;
use benilla_liquid::shoreline::Shoreline;
use benilla_liquid::spawn::{is_ready, spawn_liquids, spawn_wmo_liquids};
use benilla_liquid::surface::{can_draw, liquid_bevy_mesh, Shores};
use benilla_liquid::waterline::trace_waterline;
use benilla_liquid::wet_lattice::WetLattice;

/// Single precision numbers, as the renderer has them.
#[derive(Clone, Copy, Debug, PartialEq, PartialOrd)]
struct R(f32);

impl Scalar for R {
    fn plus(self, other: Self) -> Self {
        R(self.0 + other.0)
    }
    fn minus(self, other: Self) -> Self {
        R(self.0 - other.0)
    }
    fn times(self, other: Self) -> Self {
        R(self.0 * other.0)
    }
    fn over(self, other: Self) -> Self {
        R(self.0 / other.0)
    }
    fn negated(self) -> Self {
        R(-self.0)
    }
    fn less(self, other: Self) -> bool {
        self.0 < other.0
    }
    fn at_most(self, other: Self) -> bool {
        self.0 <= other.0
    }
    fn ratio(num: i64, den: u64) -> Self {
        R((num as f64 / den as f64) as f32)
    }
    fn largest() -> Self {
        R(f32::MAX)
    }
    fn absolute(self) -> Self {
        R(self.0.abs())
    }
    fn floor(self) -> Self {
        R(self.0.floor())
    }
    fn ceil(self) -> Self {
        R(self.0.ceil())
    }
    fn round(self) -> Self {
        R(self.0.round())
    }
    fn sqrt(self) -> Self {
        R(self.0.sqrt())
    }
    fn least(self, other: Self) -> Self {
        R(self.0.min(other.0))
    }
    fn greatest(self, other: Self) -> Self {
        R(self.0.max(other.0))
    }
    fn is_finite(self) -> bool {
        self.0.is_finite()
    }
    fn to_i32(self) -> i32 {
        self.0 as i32
    }
    fn to_index(self) -> usize {
        self.0 as usize
    }
    fn to_byte(self) -> u8 {
        self.0 as u8
    }
}

fn v2(x: f32, y: f32) -> Vec2<R> {
    Vec2 { x: R(x), y: R(y) }
}

fn v3(x: f32, y: f32, z: f32) -> Vec3<R> {
    Vec3 { x: R(x), y: R(y), z: R(z) }
}

/// A grid of so many points four yards apart, its cells all wet, at a height and a place.
fn sheet(cols: u32, rows: u32, at: [f32; 3]) -> LiquidMesh<R> {
    let [x, y, z] = at;
    let mut positions = Vec::new();
    let mut uvs = Vec::new();
    let mut depths = Vec::new();
    for j in 0..rows {
        for i in 0..cols {
            positions.push(v3(x + 4.0 * i as f32, y + 4.0 * j as f32, z));
            uvs.push(v2(i as f32 * 0.25, j as f32 * 0.25));
            depths.push(R((i + j) as f32));
        }
    }
    let cells = (cols.saturating_sub(1) * rows.saturating_sub(1)) as usize;
    LiquidMesh {
        grid: [cols, rows],
        wet: vec![true; cells],
        shared: vec![false; cells],
        positions,
        uvs,
        depths,
        indices: vec![],
        sound_nibble: 0,
        material_id: None,
        kind: LiquidKind::Still,
    }
}

fn floats(v: &Vec2<R>) -> (f32, f32) {
    (v.x.0, v.y.0)
}

#[test]
fn only_nibbles_six_and_seven_scroll() {
    assert!(scrolls(6), "magma variant 6 takes the animated matrix");
    assert!(scrolls(7), "slime variant 7 takes the animated matrix");
    assert!(!scrolls(2), "the Great Forge's lava is static");
    assert!(!scrolls(3), "nibble-3 slime is static");
    assert!(!scrolls(4), "nibble 4 is lake_a, not a hazard liquid");
    for n in [0u8, 1, 5, 8, 0xf] {
        assert!(!scrolls(n), "nibble {n} must not scroll");
    }
}

#[test]
fn only_fullbright_kinds_can_take_a_scroll_lane() {
    for n in 0..FRAME_SETS {
        let kind = frame_set(n).kind;
        let wants_lane = kind.is_fullbright();
        assert_eq!(
            wants_lane,
            [2u8, 3, 6, 7].iter().any(|&n| scrolls(n) && LiquidKind::hazard(n) == Some(kind)),
            "{kind:?}: scroll lane and the nibbles that can ask for one must agree"
        );
    }
}

#[test]
fn the_renderers_differ_in_their_fog_and_their_colour() {
    assert_eq!(LiquidPath::wmo(true), LiquidPath::WmoInterior);
    assert_eq!(LiquidPath::wmo(false), LiquidPath::WmoExterior);
    let all = [LiquidPath::Adt, LiquidPath::WmoExterior, LiquidPath::WmoInterior];
    assert_eq!(all.map(|p| p.interior_fog()), [false, false, true]);
    assert_eq!(all.map(|p| p.takes_material_body_color()), [false, false, true]);
    assert_eq!(all.map(|p| p.shader_id::<R>().0), [0.0, 1.0, 2.0]);
}

#[test]
fn materials_are_found_by_kind_renderer_and_lane() {
    let mut assets = LiquidAssets::new();
    let key = |kind, path, scroll| LiquidKey { kind, path, scroll };
    assert!(assets.material(LiquidKind::Magma, LiquidPath::Adt, false).is_none());
    assets.insert(key(LiquidKind::Magma, LiquidPath::Adt, false), "still lava");
    assets.insert(key(LiquidKind::Magma, LiquidPath::WmoInterior, true), "creeping lava");
    assets.insert(key(LiquidKind::Slime, LiquidPath::Adt, false), "slime");
    assert_eq!(assets.material(LiquidKind::Magma, LiquidPath::Adt, false), Some(&"still lava"));
    assert_eq!(
        assets.material(LiquidKind::Magma, LiquidPath::WmoInterior, true),
        Some(&"creeping lava")
    );
    assert!(assets.material(LiquidKind::Magma, LiquidPath::WmoInterior, false).is_none());
    assert!(assets.material(LiquidKind::Still, LiquidPath::Adt, true).is_none());
    assets.insert(key(LiquidKind::Magma, LiquidPath::Adt, false), "lava again");
    assert_eq!(assets.material(LiquidKind::Magma, LiquidPath::Adt, false), Some(&"lava again"));
    assert_eq!(loaded_sets(&assets), 2);
}

#[test]
fn every_kind_has_its_frames() {
    let sets: Vec<(LiquidKind, &str, &str, u32)> = (0..FRAME_SETS)
        .map(|n| {
            let s = frame_set(n);
            (s.kind, s.dir, s.stem, s.count)
        })
        .collect();
    assert_eq!(
        sets,
        vec![
            (LiquidKind::Still, "river", "lake_a", 30),
            (LiquidKind::Rapids, "river", "fast_a", 16),
            (LiquidKind::Ocean, "ocean", "ocean_h", 30),
            (LiquidKind::Magma, "lava", "lava", 30),
            (LiquidKind::Slime, "slime", "slime", 30),
        ]
    );
    assert_eq!(frame_path("river", "lake_a", 1), "XTextures\\river\\lake_a.1.blp");
    assert_eq!(frame_path("ocean", "ocean_h", 30), "XTextures\\ocean\\ocean_h.30.blp");
    assert_eq!(frame_path("a", "b", 4207), "XTextures\\a\\b.4207.blp");
}

#[test]
fn a_run_of_frames_ends_at_the_first_that_does_not_fit() {
    let mut run = FrameRun::new();
    assert!(run.offer(Some((256, 256))));
    assert!(run.offer(Some((256, 256))));
    assert_eq!(run, FrameRun { size: 256, count: 2, ended: false });
    assert!(!run.offer(Some((128, 128))), "another size cannot share the array");
    assert!(!run.offer(Some((256, 256))), "the run has ended");
    assert_eq!(run, FrameRun { size: 256, count: 2, ended: true });
    for first in [Some((256, 128)), None] {
        let mut run = FrameRun::new();
        assert!(!run.offer(first), "water frames are square, and can be read");
        assert!(!run.offer(Some((256, 256))));
        assert_eq!(run, FrameRun { size: 0, count: 0, ended: true });
    }
    assert!(flattens_frames(LiquidKind::Ocean));
    assert!(!flattens_frames(LiquidKind::Slime));
}

/// One material per renderer for water, and a second, scrolling, for each hazard's.
#[test]
fn materials_are_planned_for_the_sets_that_loaded() {
    let scene = MaterialScene {
        style_flag: R(1.0),
        shininess: R(20.0),
        water_bias: R(-7.0),
        deterministic: false,
    };
    let plans = setup_liquid(&vec![Some(30), None, Some(12), Some(5), None], &scene);
    assert_eq!(plans.len(), 3 + 3 + 6);
    let keys: Vec<(LiquidKind, LiquidPath, bool)> =
        plans.iter().map(|p| (p.key.kind, p.key.path, p.key.scroll)).collect();
    assert_eq!(keys[0], (LiquidKind::Still, LiquidPath::Adt, false));
    assert_eq!(keys[2], (LiquidKind::Still, LiquidPath::WmoInterior, false));
    assert_eq!(keys[3], (LiquidKind::Ocean, LiquidPath::Adt, false));
    assert_eq!(keys[6], (LiquidKind::Magma, LiquidPath::Adt, false));
    assert_eq!(keys[7], (LiquidKind::Magma, LiquidPath::Adt, true));
    assert_eq!(keys[11], (LiquidKind::Magma, LiquidPath::WmoInterior, true));

    let four = |v: &Vec4<R>| [v.x.0, v.y.0, v.z.0, v.w.0];
    let ocean = &plans[5];
    assert!(!ocean.opaque);
    assert_eq!(ocean.depth_bias, R(-7.0));
    assert_eq!(four(&ocean.kind), [0.0, 1.0, 1.0, 20.0]);
    assert_eq!(four(&ocean.path), [2.0, 1.0, 0.0, 0.0]);
    assert_eq!(four(&ocean.anim), [0.0, 12.0, 0.0, 1.0]);
    let lava = &plans[7];
    assert!(lava.opaque);
    assert_eq!(lava.depth_bias, R(0.0));
    assert_eq!(four(&lava.kind), [1.0, 0.0, 0.0, 20.0]);
    assert_eq!(four(&lava.anim), [0.0, 5.0, 1.0, 1.0]);

    let frozen = MaterialScene { deterministic: true, ..scene };
    assert_eq!(setup_liquid(&vec![Some(1), None, None, None, None], &frozen)[0].anim.w, R(0.0));
}

/// Bilinear between points, through the points, with the level where a point has no height.
#[test]
fn a_surface_passes_through_its_points() {
    let mut mesh = sheet(3, 3, [100.0, 200.0, 5.0]);
    mesh.positions[4].z = R(9.0);
    assert_eq!(mesh.surface_point(R(0.0), R(1.0), R(1.0)), v3(104.0, 204.0, 9.0));
    assert_eq!(mesh.surface_point(R(0.0), R(0.5), R(1.0)), v3(102.0, 204.0, 7.0));
    assert_eq!(mesh.surface_point(R(0.0), R(0.5), R(0.5)), v3(102.0, 202.0, 6.0));
    // The last line of points belongs to the last cell, and so does what lies past it.
    assert_eq!(mesh.surface_point(R(0.0), R(2.0), R(2.0)), v3(108.0, 208.0, 5.0));
    assert_eq!(mesh.surface_point(R(0.0), R(3.0), R(0.0)), v3(112.0, 200.0, 5.0));
    assert_eq!(mesh.surface_point(R(0.0), R(-1.0), R(0.0)), v3(96.0, 200.0, 5.0));

    assert_eq!(mesh.level(), Some(R(49.0 / 9.0)));
    mesh.positions[4].z = R(1.0e9);
    assert_eq!(mesh.level(), Some(R(5.0)));
    assert_eq!(mesh.surface_point(R(3.0), R(1.0), R(1.0)).z, R(3.0));
    for p in mesh.positions.iter_mut() {
        p.z = R(-1.0e8);
    }
    assert_eq!(mesh.level(), None);
}

#[test]
fn the_axes_are_exchanged_and_given_back() {
    let p = v3(1.0, 2.0, 3.0);
    assert_eq!(wow_to_bevy(p), v3(-2.0, 3.0, -1.0));
    assert_eq!(bevy_to_wow(wow_to_bevy(p)), p);
}

fn sample(x: f32, y: f32, value: f32) -> Sample<R> {
    Sample { at: v2(x, y), value: R(value) }
}

fn traced(values: [f32; 4]) -> Vec<((f32, f32), (f32, f32))> {
    let mut raw = Vec::new();
    march(
        sample(0.0, 0.0, values[0]),
        sample(1.0, 0.0, values[1]),
        sample(1.0, 1.0, values[2]),
        sample(0.0, 1.0, values[3]),
        &mut raw,
    );
    raw.iter().map(|s| (floats(&s.a), floats(&s.b))).collect()
}

/// A line enters a square as often as it leaves it.
#[test]
fn a_square_is_crossed_twice_or_four_times_or_not_at_all() {
    assert_eq!(traced([1.0, 1.0, 1.0, 1.0]), vec![]);
    assert_eq!(traced([-1.0, -1.0, 0.0, -1.0]), vec![], "the line itself is not above it");
    assert_eq!(traced([1.0, -1.0, -1.0, -1.0]), vec![((0.5, 0.0), (0.0, 0.5))]);
    assert_eq!(traced([3.0, -1.0, -1.0, 3.0]), vec![((0.75, 0.0), (0.75, 1.0))]);
    assert_eq!(
        traced([1.0, -1.0, 1.0, -1.0]),
        vec![((0.5, 0.0), (1.0, 0.5)), ((0.5, 1.0), (0.0, 0.5))],
        "a saddle"
    );
}

fn segment(ax: f32, ay: f32, bx: f32, by: f32) -> Segment<R> {
    Segment { a: v2(ax, ay), b: v2(bx, by) }
}

/// The nearest point of the nearest piece, its ends included.
#[test]
fn the_nearest_point_of_the_waterline() {
    let shore = Shoreline::from_segments(&vec![
        segment(0.0, 0.0, 3.0, 0.0),
        segment(0.0, 5.0, 0.0, 5.0),
        segment(-6.0, 1.0, -6.0, -9.0),
    ])
    .expect("there is a line");
    let near = |x: f32, y: f32| shore.nearest(v2(x, y)).map(|n| (floats(&n.at), n.d.0));
    assert_eq!(near(1.0, 2.0), Some(((1.0, 0.0), 2.0)));
    assert_eq!(near(6.0, 4.0), Some(((3.0, 0.0), 5.0)), "past its end");
    assert_eq!(near(-0.5, 5.0), Some(((0.0, 5.0), 0.5)), "a piece with no length is a point");
    assert_eq!(near(-5.0, -8.0), Some(((-6.0, -8.0), 1.0)), "filed under every bucket it touches");
    assert_eq!(near(100.0, 0.0), None);
    assert_eq!(shore.distance(v2(100.0, 0.0)), R(24.0));
    assert_eq!(shore.distance(v2(1.0, 2.0)), R(2.0));
    assert!(Shoreline::<R>::from_segments(&vec![]).is_none());
}

/// Of equally near pieces the first bucket's wins, and within a bucket the first piece.
#[test]
fn ties_go_to_the_first() {
    let shore = Shoreline::from_segments(&vec![
        segment(1.0, 1.0, 1.0, 1.0),
        segment(3.0, 1.0, 3.0, 1.0),
        segment(2.0, 0.0, 2.0, 0.0),
    ])
    .expect("points");
    let near = shore.nearest(v2(2.0, 1.0)).expect("near");
    assert_eq!(floats(&near.at), (1.0, 1.0));
}

fn edge(meshes: Vec<LiquidMesh<R>>) -> Option<WetLattice<R>> {
    WetLattice::build(&meshes)
}

/// Water wherever there is a cell has no edge, and neither has the join of two surfaces, however
/// they disagree about it.
#[test]
fn the_join_of_two_surfaces_is_no_shore() {
    let lattice = edge(vec![sheet(5, 5, [0.0, 0.0, 0.0])]).expect("a grid");
    assert!(lattice.edge.is_none());
    assert_eq!(lattice.distance_to_dry(v2(0.0, 0.0)), R(24.0));

    // The first calls its last column dry, and the second covers it, wet.
    let mut first = sheet(5, 5, [0.0, 0.0, 0.0]);
    for j in 0..4 {
        first.wet[j * 4 + 3] = false;
    }
    let alone = edge(vec![sheet(2, 2, [0.0, 0.0, 0.0]), first]).expect("a grid");
    assert!(alone.edge.is_some());
    let mut first = sheet(5, 5, [0.0, 0.0, 0.0]);
    for j in 0..4 {
        first.wet[j * 4 + 3] = false;
    }
    let joined = edge(vec![first, sheet(4, 5, [12.0, 0.0, 0.0])]).expect("a grid");
    assert!(joined.edge.is_none());
}

/// The edge runs half way between wet and dry.
#[test]
fn the_edge_runs_between_wet_and_dry() {
    let mut mesh = sheet(5, 5, [0.0, 0.0, 0.0]);
    for j in 0..4 {
        mesh.wet[j * 4 + 2] = false;
        mesh.wet[j * 4 + 3] = false;
    }
    let lattice = edge(vec![mesh]).expect("a grid");
    // The corners over x = 8 are half wet, so the line lies on x = 8.
    assert_eq!(lattice.distance_to_dry(v2(5.0, 6.0)), R(3.0));
    assert_eq!(lattice.distance_to_dry(v2(10.0, 6.0)), R(2.0));
    // A lone dry cell in open water gets no edge at all.
    let mut pond = sheet(5, 5, [0.0, 0.0, 0.0]);
    pond.wet[5] = false;
    assert!(edge(vec![pond]).expect("a grid").edge.is_none());
}

#[test]
fn a_batch_without_a_usable_grid_has_no_lattice() {
    assert!(edge(vec![]).is_none());
    assert!(edge(vec![sheet(1, 9, [0.0, 0.0, 0.0])]).is_none());
    let mut flat = sheet(2, 2, [0.0, 0.0, 0.0]);
    flat.positions[1] = flat.positions[0];
    assert!(edge(vec![flat]).is_none(), "no pitch to speak of");
    let mut nowhere = sheet(2, 2, [0.0, 0.0, 0.0]);
    nowhere.positions[3].x = R(f32::INFINITY);
    assert!(edge(vec![nowhere]).is_none(), "no cell lies anywhere");
}

/// A beach rising through level water: the waterline is where they meet.
#[test]
fn the_waterline_is_where_the_ground_rises_through_the_water() {
    let beach = |p: Vec3<R>| Some(R(p.x.0 - 6.0));
    let none = |_: usize, _: Vec3<R>| None;
    let meshes = vec![sheet(5, 5, [0.0, 0.0, 0.0])];
    let shore = Shoreline::build(&meshes, 1, &none, &beach).expect("a waterline");
    assert!((shore.distance(v2(4.0, 8.0)).0 - 2.0).abs() < 1e-5);
    assert!((shore.distance(v2(7.0, 8.0)).0 - 1.0).abs() < 1e-5);
    assert!(Shoreline::build(&meshes, 0, &none, &beach).is_none(), "no terrain");

    // Its own chunk answers first, where it can.
    let own = |c: usize, p: Vec3<R>| (c == 1).then_some(R(p.x.0 - 10.0));
    let shore = Shoreline::build(&meshes, 3, &own, &beach).expect("a waterline");
    assert!((shore.distance(v2(8.0, 8.0)).0 - 2.0).abs() < 1e-5);

    // Ground everywhere under the water, or nowhere at all, is no shore.
    let deep = |_: Vec3<R>| Some(R(-50.0));
    assert!(Shoreline::build(&meshes, 1, &none, &deep).is_none());
    let gone = |_: Vec3<R>| None;
    assert!(Shoreline::build(&meshes, 1, &none, &gone).is_none());
    // Nor has a surface with a point too few, or none with a height.
    let mut short = sheet(5, 5, [0.0, 0.0, 0.0]);
    short.positions.pop();
    assert!(Shoreline::build(&vec![short], 1, &none, &beach).is_none());
}

/// Ground already surveyed is traced alone.
#[test]
fn surveyed_ground_is_traced() {
    let mesh = sheet(2, 2, [0.0, 0.0, 0.0]);
    // Five samples a side, a yard apart: the ground falls from one over the water to one under.
    let ground: Vec<Vec<Option<R>>> =
        (0..5).map(|_| (0..5).map(|i| Some(R(1.5 - i as f32))).collect()).collect();
    let mut raw = Vec::new();
    trace_waterline(&mesh, &ground, &mut raw);
    assert_eq!(raw.len(), 4);
    for (j, s) in raw.iter().enumerate() {
        assert_eq!(floats(&s.a), (1.5, j as f32));
        assert_eq!(floats(&s.b), (1.5, j as f32 + 1.0));
    }
    let mut holed = ground;
    holed[2][1] = None;
    let mut raw = Vec::new();
    trace_waterline(&mesh, &holed, &mut raw);
    assert_eq!(raw.len(), 2, "no line where any corner has no ground");
}

/// One wet cell away from any shore: four corners, two triangles, facing up.
#[test]
fn a_cell_in_open_water_is_one_square() {
    let mesh = sheet(2, 2, [8.0, 0.0, 5.0]);
    let data = liquid_bevy_mesh(&mesh, None, None, None);
    assert_eq!(
        data.positions,
        vec![v3(0.0, 5.0, -8.0), v3(0.0, 5.0, -12.0), v3(-4.0, 5.0, -8.0), v3(-4.0, 5.0, -12.0)]
    );
    assert_eq!(data.normals, vec![v3(0.0, 1.0, 0.0); 4]);
    assert_eq!(data.uvs, vec![v2(0.0, 0.0), v2(0.25, 0.0), v2(0.0, 0.25), v2(0.25, 0.25)]);
    assert_eq!(data.uv1, vec![v2(0.0, 24.0), v2(1.0, 24.0), v2(1.0, 24.0), v2(2.0, 24.0)]);
    assert_eq!(data.shore_offsets, vec![v2(0.0, -24.0); 4]);
    assert_eq!(data.indices, vec![0, 2, 3, 0, 3, 1]);
    assert!(data.colors.is_none());
}

/// Cells near the shore are split, and only those; dry cells are not drawn.
#[test]
fn cells_along_the_shore_are_split() {
    let mut mesh = sheet(6, 2, [0.0, 0.0, 0.0]);
    mesh.wet[4] = false;
    let shore = Shoreline::from_segments(&vec![segment(0.0, -100.0, 0.0, 100.0)]).expect("a line");
    let data = liquid_bevy_mesh(&mesh, Some(v3(0.1, 0.2, 0.3)), None, Some(&shore));
    // The middles of the first cells are two and six yards off; the reach is five.
    assert_eq!(data.positions.len(), 81 + 3 * 4);
    assert_eq!(data.indices.len(), 6 * (64 + 3));
    assert!(data.indices.iter().all(|&i| (i as usize) < data.positions.len()));
    let colors = data.colors.expect("its own colour");
    assert_eq!(colors, vec![Vec4 { x: R(0.1), y: R(0.2), z: R(0.3), w: R(1.0) }; 93]);
    // The second corner is half a yard along, and the shore that far behind it.
    assert_eq!(data.positions[1], v3(0.0, 0.0, -0.5));
    assert_eq!(data.uv1[1].y, R(0.5));
    assert_eq!(data.shore_offsets[1], v2(0.0, 0.5));
    assert_eq!(data.uvs[1], v2(0.25 / 8.0, 0.0));
    // The first two squares of the split cell, whose rows are nine corners long.
    assert_eq!(&data.indices[..12], [0, 9, 10, 0, 10, 1, 1, 10, 11, 1, 11, 2]);
    // Neighbours share the ends of their common side, split or not.
    assert_eq!(data.positions[8], data.positions[81]);
    assert_eq!(data.positions[80], data.positions[83]);
    assert_eq!(liquid_bevy_mesh(&sheet(1, 5, [0.0; 3]), None, None, None).positions.len(), 0);
}

/// Split cells share the corners along their common sides, and every such corner lies the same share
/// of the way along the side, in whichever direction it runs.
#[test]
fn split_sides_meet_and_stay_on_the_whole_ones() {
    let mut mesh = sheet(3, 3, [0.0, 0.0, 0.0]);
    for (k, z) in [0.0, 8.0, 4.0, 2.0, 16.0, 1.0, 32.0, 0.5, 8.0].iter().enumerate() {
        mesh.positions[k].z = R(*z);
    }
    let shore = Shoreline::from_segments(&vec![segment(4.0, -100.0, 4.0, 100.0)]).expect("a line");
    let data = liquid_bevy_mesh(&mesh, None, None, Some(&shore));
    assert_eq!(data.positions.len(), 4 * 81);
    let corner = |cell: usize, si: usize, sj: usize| cell * 81 + sj * 9 + si;
    let between = |a: usize, b: usize, s: usize| {
        let (p, q, f) = (mesh.positions[a], mesh.positions[b], s as f32 / 8.0);
        let mix = |x: R, y: R| x.0 + (y.0 - x.0) * f;
        v3(-mix(p.y, q.y), mix(p.z, q.z), -mix(p.x, q.x))
    };
    for s in 0..9 {
        // Beside each other, then one beyond the other.
        for (a, b) in [
            (corner(0, 8, s), corner(1, 0, s)),
            (corner(2, 8, s), corner(3, 0, s)),
            (corner(0, s, 8), corner(2, s, 0)),
            (corner(1, s, 8), corner(3, s, 0)),
        ] {
            assert_eq!(data.positions[a], data.positions[b]);
            assert_eq!(data.uv1[a].y, data.uv1[b].y);
            assert_eq!(data.shore_offsets[a], data.shore_offsets[b]);
        }
        assert_eq!(data.positions[corner(0, 0, s)], between(0, 3, s));
        assert_eq!(data.positions[corner(0, s, 0)], between(0, 1, s));
        assert_eq!(data.positions[corner(0, 8, s)], between(1, 4, s));
        assert_eq!(data.positions[corner(0, s, 8)], between(3, 4, s));
    }
}

/// The nearer of the two shores counts, and only the traced one has a point to offer.
#[test]
fn the_nearer_shore_counts() {
    let line = Shoreline::from_segments(&vec![segment(0.0, -64.0, 0.0, 64.0)]).expect("a line");
    let lattice = |x: f32| WetLattice {
        edge: Shoreline::from_segments(&vec![segment(x, -64.0, x, 64.0)]),
    };
    let p = v2(2.0, 3.0);
    let grid = lattice(5.0);
    let shores = Shores { lattice: Some(&grid), shoreline: Some(&line) };
    let seen = shores.shore_at(p);
    assert_eq!((seen.d.0, floats(&seen.offset)), (2.0, (-2.0, 0.0)));
    let grid = lattice(2.5);
    let seen = Shores { lattice: Some(&grid), shoreline: Some(&line) }.shore_at(p);
    assert_eq!((seen.d.0, floats(&seen.offset)), (0.5, (0.5, 0.0)));
    let seen = Shores { lattice: Some(&grid), shoreline: None }.shore_at(p);
    assert_eq!(seen.d.0, 0.5);
    let seen = Shores::<R> { lattice: None, shoreline: None }.shore_at(p);
    assert_eq!((seen.d.0, floats(&seen.offset)), (24.0, (24.0, 0.0)));
}

fn all_materials() -> LiquidAssets<u32> {
    let scene = MaterialScene {
        style_flag: R(0.0),
        shininess: R(1.0),
        water_bias: R(0.0),
        deterministic: false,
    };
    let mut assets = LiquidAssets::new();
    for (n, plan) in setup_liquid(&vec![Some(1); FRAME_SETS], &scene).iter().enumerate() {
        assets.insert(plan.key, n as u32);
    }
    assets
}

fn lava(nibble: u8) -> LiquidMesh<R> {
    LiquidMesh { kind: LiquidKind::Magma, sound_nibble: nibble, ..sheet(2, 2, [0.0, 0.0, 0.0]) }
}

#[test]
fn terrain_liquid_never_scrolls_and_buildings_do_by_their_nibble() {
    let assets = all_materials();
    let none = |_: usize, _: Vec3<R>| None;
    let gone = |_: Vec3<R>| None;
    let meshes = vec![lava(6), sheet(2, 2, [4.0, 0.0, 0.0])];
    let surfaces = spawn_liquids(&meshes, 0, &none, &gone, Some(&assets));
    assert_eq!(surfaces.len(), 2);
    assert_eq!(
        surfaces[0].key,
        LiquidKey { kind: LiquidKind::Magma, path: LiquidPath::Adt, scroll: false }
    );
    assert!(!surfaces[0].foam);
    assert_eq!(surfaces[0].nibble, 6);
    assert!(surfaces[1].foam);
    assert_eq!(surfaces[1].mesh, 1);

    let pools = spawn_wmo_liquids(&vec![lava(6), lava(2)], Some(&assets), true, &vec![], None);
    assert!(pools[0].key.scroll);
    assert!(!pools[1].key.scroll);
    assert_eq!(pools[0].key.path, LiquidPath::WmoInterior);
    let pools = spawn_wmo_liquids(&vec![lava(7)], Some(&assets), false, &vec![], None);
    assert_eq!(pools[0].key.path, LiquidPath::WmoExterior);
}

/// One sheet of two by two points, eight yards a side.
fn one_sheet(at: [f32; 3]) -> LiquidMesh<R> {
    let [x, y, z] = at;
    LiquidMesh {
        grid: [2, 2],
        wet: vec![true],
        shared: vec![false],
        positions: vec![v3(x, y, z), v3(x + 8.0, y, z), v3(x, y + 8.0, z), v3(x + 8.0, y + 8.0, z)],
        uvs: vec![v2(0.0, 0.0); 4],
        depths: vec![R(1.0); 4],
        indices: vec![0, 1, 2, 1, 3, 2],
        sound_nibble: 0,
        material_id: None,
        kind: LiquidKind::Still,
    }
}

#[test]
fn an_adt_liquid_surface_is_tagged_exterior_scene() {
    let none = |_: usize, _: Vec3<R>| None;
    let gone = |_: Vec3<R>| None;
    let mut assets = LiquidAssets::new();
    assets.insert(LiquidKey { kind: LiquidKind::Still, path: LiquidPath::Adt, scroll: false }, ());
    let sheets = vec![one_sheet([100.0, 100.0, 5.0])];
    let spawned = spawn_liquids(&sheets, 0, &none, &gone, Some(&assets));
    assert_eq!(spawned.len(), 1, "one sheet in, one surface out");
    assert!(
        spawned[0].exterior,
        "an open-world liquid surface is exterior scene: untagged, the window cull never queries \
         it and the lake draws through a sealed ceiling"
    );
    let pools = spawn_wmo_liquids(&sheets, Some(&all_materials()), false, &vec![], None);
    assert!(!pools[0].exterior, "a building's pool is culled with its building");
}

/// A surface that cannot be drawn is found out before it is.
#[test]
fn a_surface_with_something_missing_cannot_be_drawn() {
    assert!(can_draw(&sheet(5, 4, [0.0; 3]), None));
    assert!(can_draw(&sheet(0, 4, [0.0; 3]), None));
    let mut mesh = sheet(3, 3, [0.0; 3]);
    mesh.uvs.pop();
    assert!(!can_draw(&mesh, None), "a wet corner with no place on the sheet");
    mesh.wet[3] = false;
    assert!(can_draw(&mesh, None), "which does not matter where it is dry");
    let mesh = LiquidMesh { grid: [u32::MAX, 1], ..sheet(0, 0, [0.0; 3]) };
    assert!(mesh.is_whole(), "a long side is nothing without a cell");
    let mesh = LiquidMesh { grid: [0x4000_0000, 0x4000_0000], ..sheet(0, 0, [0.0; 3]) };
    assert!(!mesh.is_whole(), "a grid with cells has its points");
    let mesh = LiquidMesh { grid: [u32::MAX, u32::MAX], ..sheet(0, 0, [0.0; 3]) };
    assert!(!mesh.is_whole());
    let shores = Shores { lattice: None, shoreline: None };
    assert!(can_draw(&sheet(5, 4, [0.0; 3]), Some(&shores)));
    let mut mesh = sheet(3, 3, [0.0; 3]);
    mesh.positions.pop();
    assert!(!can_draw(&mesh, None));
    let mut mesh = sheet(3, 3, [0.0; 3]);
    mesh.wet.pop();
    assert!(!can_draw(&mesh, None));
}

/// What has no material is never drawn, so it need not be whole.
#[test]
fn only_what_is_drawn_has_to_be_whole() {
    let mut assets = LiquidAssets::new();
    assets.insert(
        LiquidKey { kind: LiquidKind::Still, path: LiquidPath::WmoExterior, scroll: false },
        (),
    );
    let mut torn = lava(2);
    torn.positions.pop();
    assert!(!torn.is_whole() && !can_draw(&torn, None));
    let meshes = vec![torn, sheet(2, 2, [0.0, 0.0, 0.0])];
    assert!(meshes[1].is_whole());
    assert!(is_ready(&meshes, &assets, LiquidPath::WmoExterior, None));
    assert!(!is_ready(&meshes, &all_materials(), LiquidPath::WmoExterior, None));
    let pools = spawn_wmo_liquids(&meshes, Some(&assets), false, &vec![], None);
    assert_eq!(pools.len(), 1);
    assert_eq!(pools[0].mesh, 1);
    assert!(spawn_wmo_liquids(&meshes, None::<&LiquidAssets<()>>, false, &vec![], None).is_empty());
}

/// Liquids whose frames did not load are left out, and without materials there is nothing.
#[test]
fn a_liquid_without_a_material_is_not_drawn() {
    let none = |_: usize, _: Vec3<R>| None;
    let gone = |_: Vec3<R>| None;
    let mut assets = LiquidAssets::new();
    assets.insert(LiquidKey { kind: LiquidKind::Still, path: LiquidPath::Adt, scroll: false }, ());
    let meshes = vec![lava(2), sheet(2, 2, [0.0, 0.0, 0.0])];
    let surfaces = spawn_liquids(&meshes, 0, &none, &gone, Some(&assets));
    assert_eq!(surfaces.len(), 1);
    assert_eq!(surfaces[0].mesh, 1);
    assert!(spawn_liquids(&meshes, 0, &none, &gone, None::<&LiquidAssets<()>>).is_empty());
    assert!(spawn_wmo_liquids(&meshes, None::<&LiquidAssets<()>>, true, &vec![], None).is_empty());
}

/// Only interior water takes its colour from the table, and only where its entry is there.
#[test]
fn interior_water_is_tinted() {
    let assets = all_materials();
    let colors = vec![v3(0.1, 0.2, 0.3), v3(0.4, 0.5, 0.6)];
    let pool = |id: Option<u16>, kind: LiquidKind| {
        LiquidMesh { material_id: id, kind, ..sheet(2, 2, [0.0, 0.0, 0.0]) }
    };
    let tint = |interior: bool, mesh: LiquidMesh<R>| {
        let data = spawn_wmo_liquids(&vec![mesh], Some(&assets), interior, &colors, None);
        data[0].data.colors.as_ref().map(|c| c[0])
    };
    let blue = Vec4 { x: R(0.4), y: R(0.5), z: R(0.6), w: R(1.0) };
    assert_eq!(tint(true, pool(Some(1), LiquidKind::Still)), Some(blue));
    assert_eq!(tint(true, pool(Some(2), LiquidKind::Still)), None);
    assert_eq!(tint(true, pool(None, LiquidKind::Still)), None);
    assert_eq!(tint(true, pool(Some(1), LiquidKind::Slime)), None);
    assert_eq!(tint(false, pool(Some(1), LiquidKind::Still)), None);
}

/// A tile measures its shores over the whole of itself.
#[test]
fn a_tile_measures_its_shores_together() {
    let assets = all_materials();
    let none = |_: usize, _: Vec3<R>| None;
    let beach = |p: Vec3<R>| Some(R(p.x.0 - 14.0));
    let meshes = vec![sheet(3, 3, [0.0, 0.0, 0.0]), sheet(3, 3, [8.0, 0.0, 0.0])];
    let surfaces = spawn_liquids(&meshes, 1, &none, &beach, Some(&assets));
    // The shore runs at x = 14 through the second surface; the first has a cell within reach of
    // nothing, and the second is split.
    assert_eq!(surfaces[0].data.positions.len(), 4 * 4);
    assert_eq!(surfaces[1].data.positions.len(), 4 * 81);
    assert!((surfaces[1].data.uv1[0].y.0 - 6.0).abs() < 1e-5);
}

/// Fixed point numbers keep thirty two bits of fraction, round down, and stop at the ends.
#[test]
fn fixed_point_arithmetic() {
    let f = |n: i64, d: u64| Fixed::ratio(n, d);
    assert_eq!(f(1, 2).raw, 0x8000_0000);
    assert_eq!(f(3, 2).plus(f(1, 4)), f(7, 4));
    assert_eq!(f(3, 2).minus(f(7, 4)), f(-1, 4));
    assert_eq!(f(-3, 2).times(f(5, 2)), f(-15, 4));
    assert_eq!(f(7, 2).over(f(-7, 4)), f(-2, 1));
    assert_eq!(f(1, 3).raw, 0x5555_5555);
    assert_eq!(f(-1, 3).raw, -0x5555_5556);
    assert_eq!(f(9, 4).sqrt(), f(3, 2));
    assert_eq!(f(2, 1).sqrt().raw, 6074000999);
    assert_eq!(f(-4, 1).sqrt().raw, 0);
    assert_eq!((f(-5, 2).floor(), f(-5, 2).ceil(), f(-5, 2).round()), (f(-3, 1), f(-2, 1), f(-3, 1)));
    assert_eq!((f(5, 2).floor(), f(5, 2).ceil(), f(5, 2).round()), (f(2, 1), f(3, 1), f(3, 1)));
    assert_eq!((f(-5, 2).to_i32(), f(5, 2).to_i32()), (-2, 2));
    assert_eq!((f(-5, 2).to_index(), f(5, 2).to_index()), (0, 2));
    assert_eq!((f(-1, 2).to_byte(), f(511, 2).to_byte(), f(300, 1).to_byte()), (0, 255, 255));
    assert_eq!(Fixed::largest().plus(f(1, 1)), Fixed::largest());
    assert_eq!(f(1, 1).over(f(0, 1)), Fixed::largest());
    assert_eq!(f(-1, 1).over(f(0, 1)).raw, i64::MIN);
    assert_eq!(f(0, 1).over(f(0, 1)).raw, 0);
    assert_eq!((f(-5, 2).absolute(), f(-5, 2).negated()), (f(5, 2), f(5, 2)));
    assert_eq!((f(1, 1).least(f(2, 1)), f(1, 1).greatest(f(2, 1))), (f(1, 1), f(2, 1)));
    assert!(f(1, 1).less(f(2, 1)) && !f(2, 1).less(f(2, 1)) && f(2, 1).at_most(f(2, 1)));
    assert!(Fixed::largest().is_finite());
}

/// Rows are kept by entity, and let go together.
#[test]
fn a_table_keeps_one_row_per_entity() {
    let mut table = EntityTable::new();
    assert_eq!(table.put(1, 'a'), None);
    assert_eq!(table.put(0x7_0000_0001, 'b'), None);
    assert_eq!(table.put(3, 'c'), None);
    assert_eq!(table.put(1, 'd'), Some('a'));
    assert_eq!((table.get(1), table.get(0x7_0000_0001), table.get(2)), (Some('d'), Some('b'), None));
    assert_eq!(table.len(), 3);
    table.keep_only(&vec![3, 9, 1]);
    assert_eq!((table.get(1), table.get(0x7_0000_0001), table.get(3)), (Some('d'), None, Some('c')));
    assert_eq!(table.len(), 2);
}
