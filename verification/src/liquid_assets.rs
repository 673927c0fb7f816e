//! Which shared material a liquid surface takes, and which materials there are.
//!
//! One material per kind, renderer and scroll lane, over one animated frame set per kind.

use std::collections::HashMap;
use vstd::prelude::*;

use crate::geometry::Vec4;
use crate::liquid_mesh::LiquidKind;
use crate::scalar::{flag, int_of, raise, whole_number, Scalar};

verus! {

broadcast use vstd::std_specs::hash::group_hash_axioms;

/// Which of the liquid renderers a surface belongs to.
#[derive(Clone, Copy, Debug, PartialEq, Eq, Structural)]
pub enum LiquidPath {
    /// A terrain chunk's own surface.
    Adt,
    /// The surface of a building's group that is open to the sky.
    WmoExterior,
    /// The surface of a building's group that is a true interior.
    WmoInterior,
}

impl LiquidPath {
    /// The renderer of a building's group.
    pub open spec fn of_group(interior: bool) -> Self {
        if interior {
            LiquidPath::WmoInterior
        } else {
            LiquidPath::WmoExterior
        }
    }

    /// Whether the surface fogs with the interior block rather than the scene's.
    pub open spec fn fogs_inside(self) -> bool {
        self == LiquidPath::WmoInterior
    }

    /// Whether a pool takes its body colour from its own entry of the material table.
    pub open spec fn tinted(self) -> bool {
        self == LiquidPath::WmoInterior
    }

    /// The number the shader knows the renderer by.
    pub open spec fn number(self) -> int {
        match self {
            LiquidPath::Adt => 0,
            LiquidPath::WmoExterior => 1,
            LiquidPath::WmoInterior => 2,
        }
    }

    /// The renderer of a building's group.
    pub fn wmo(interior: bool) -> (r: Self)
        ensures
            r == Self::of_group(interior),
    {
        if interior {
            LiquidPath::WmoInterior
        } else {
            LiquidPath::WmoExterior
        }
    }

    /// Whether the surface fogs with the interior block rather than the scene's: the pool and the
    /// walls around it always fog alike.
    pub fn interior_fog(self) -> (r: bool)
        ensures
            r == self.fogs_inside(),
    {
        match self {
            LiquidPath::WmoInterior => true,
            LiquidPath::Adt => false,
            LiquidPath::WmoExterior => false,
        }
    }

    /// The renderer selector the shader branches on.
    pub fn shader_id<S: Scalar>(self) -> (r: S)
        ensures
            r == int_of::<S>(self.number()),
    {
        match self {
            LiquidPath::Adt => whole_number(0),
            LiquidPath::WmoExterior => whole_number(1),
            LiquidPath::WmoInterior => whole_number(2),
        }
    }

    /// Whether a pool takes its body colour from its own entry of the material table: only the
    /// interior renderer's, for the exterior one is lit and terrain has no such table.
    pub fn takes_material_body_color(self) -> (r: bool)
        ensures
            r == self.tinted(),
    {
        match self {
            LiquidPath::WmoInterior => true,
            LiquidPath::Adt => false,
            LiquidPath::WmoExterior => false,
        }
    }
}

/// Whether a surface of this type nibble scrolls, where its renderer lets it.
pub open spec fn scrolling(nibble: u8) -> bool {
    nibble == 6 || nibble == 7
}

/// Whether a building's surface of this type nibble takes the animated texture matrix. The nibble
/// decides and not the kind: two of the nibbles that name a hazard scroll, and two do not. Terrain's
/// own liquid never scrolls, whatever its nibble.
pub fn scrolls(nibble: u8) -> (r: bool)
    ensures
        r == scrolling(nibble),
{
    nibble == 6 || nibble == 7
}

/// Which shared material a surface takes.
#[derive(Clone, Copy, Debug, PartialEq, Eq, Structural)]
pub struct LiquidKey {
    pub kind: LiquidKind,
    pub path: LiquidPath,
    /// Whether the surface takes the animated texture matrix.
    pub scroll: bool,
}

/// A kind's number.
spec fn kind_number(kind: LiquidKind) -> int {
    match kind {
        LiquidKind::Still => 0,
        LiquidKind::Rapids => 1,
        LiquidKind::Ocean => 2,
        LiquidKind::Magma => 3,
        LiquidKind::Slime => 4,
    }
}

/// A key's number: no two keys share one.
spec fn key_number(key: LiquidKey) -> u64 {
    (kind_number(key.kind) * 6 + key.path.number() * 2 + if key.scroll {
        1int
    } else {
        0
    }) as u64
}

/// A key's number.
fn number_of(key: LiquidKey) -> (r: u64)
    ensures
        r == key_number(key),
{
    let kind: u64 = match key.kind {
        LiquidKind::Still => 0,
        LiquidKind::Rapids => 1,
        LiquidKind::Ocean => 2,
        LiquidKind::Magma => 3,
        LiquidKind::Slime => 4,
    };
    let path: u64 = match key.path {
        LiquidPath::Adt => 0,
        LiquidPath::WmoExterior => 1,
        LiquidPath::WmoInterior => 2,
    };
    let scroll: u64 = if key.scroll {
        1
    } else {
        0
    };
    kind * 6 + path * 2 + scroll
}

proof fn lemma_numbers_differ(key: LiquidKey)
    ensures
        forall|other: LiquidKey| #[trigger] key_number(other) == key_number(key) ==> other == key,
{
}

/// The shared liquid materials.
#[verifier::reject_recursive_types(M)]
pub struct LiquidAssets<M> {
    index: HashMap<u64, usize>,
    materials: Vec<M>,
}

impl<M> LiquidAssets<M> {
    pub closed spec fn wf(&self) -> bool {
        forall|k: u64| #[trigger]
            self.index@.contains_key(k) ==> self.index@[k] < self.materials@.len()
    }

    /// The material under each key that has one.
    pub closed spec fn view(&self) -> Map<LiquidKey, M> {
        Map::new(
            |key: LiquidKey| self.index@.contains_key(key_number(key)),
            |key: LiquidKey| self.materials@[self.index@[key_number(key)] as int],
        )
    }

    /// No materials.
    pub fn new() -> (r: Self)
        ensures
            r.wf(),
            r@ == Map::<LiquidKey, M>::empty(),
    {
        let r = LiquidAssets { index: HashMap::new(), materials: Vec::new() };
        assert(r@ =~= Map::<LiquidKey, M>::empty());
        r
    }

    /// Put a material under a key.
    pub fn insert(&mut self, key: LiquidKey, material: M)
        requires
            old(self).wf(),
        ensures
            final(self).wf(),
            final(self)@ == old(self)@.insert(key, material),
    {
        proof {
            lemma_numbers_differ(key);
        }
        let ghost was = *self;
        let n: usize = self.materials.len();
        self.materials.push(material);
        self.index.insert(number_of(key), n);
        assert(self@ =~= was@.insert(key, material));
    }

    /// The shared material of a kind on a renderer, scrolling or not, if its frames loaded. A kind
    /// without a scrolling variant simply has no material there.
    pub fn material(&self, kind: LiquidKind, path: LiquidPath, scroll: bool) -> (r: Option<&M>)
        requires
            self.wf(),
        ensures
            match r {
                Some(m) => {
                    &&& self@.dom().contains((LiquidKey { kind, path, scroll }))
                    &&& *m == self@[(LiquidKey { kind, path, scroll })]
                },
                None => !self@.dom().contains((LiquidKey { kind, path, scroll })),
            },
    {
        match self.index.get(&number_of(LiquidKey { kind, path, scroll })) {
            Some(n) => Some(&self.materials[*n]),
            None => None,
        }
    }
}

/// A kind's animated frames: where they are, and how many there are.
#[derive(Clone, Copy, Debug)]
pub struct FrameSet {
    pub kind: LiquidKind,
    pub dir: &'static str,
    pub stem: &'static str,
    pub count: u32,
}

/// How many frame sets there are, one for each kind.
pub const FRAME_SETS: usize = 5;

/// The kind of a frame set.
pub open spec fn set_kind(n: int) -> LiquidKind {
    if n == 0 {
        LiquidKind::Still
    } else if n == 1 {
        LiquidKind::Rapids
    } else if n == 2 {
        LiquidKind::Ocean
    } else if n == 3 {
        LiquidKind::Magma
    } else {
        LiquidKind::Slime
    }
}

/// The frame sets, in order.
pub fn frame_set(n: usize) -> (r: FrameSet)
    requires
        n < FRAME_SETS,
    ensures
        r.kind == set_kind(n as int),
        match r.kind {
            LiquidKind::Still => r.dir@ == "river"@ && r.stem@ == "lake_a"@ && r.count == 30,
            LiquidKind::Rapids => r.dir@ == "river"@ && r.stem@ == "fast_a"@ && r.count == 16,
            LiquidKind::Ocean => r.dir@ == "ocean"@ && r.stem@ == "ocean_h"@ && r.count == 30,
            LiquidKind::Magma => r.dir@ == "lava"@ && r.stem@ == "lava"@ && r.count == 30,
            LiquidKind::Slime => r.dir@ == "slime"@ && r.stem@ == "slime"@ && r.count == 30,
        },
{
    if n == 0 {
        FrameSet { kind: LiquidKind::Still, dir: "river", stem: "lake_a", count: 30 }
    } else if n == 1 {
        FrameSet { kind: LiquidKind::Rapids, dir: "river", stem: "fast_a", count: 16 }
    } else if n == 2 {
        FrameSet { kind: LiquidKind::Ocean, dir: "ocean", stem: "ocean_h", count: 30 }
    } else if n == 3 {
        FrameSet { kind: LiquidKind::Magma, dir: "lava", stem: "lava", count: 30 }
    } else {
        FrameSet { kind: LiquidKind::Slime, dir: "slime", stem: "slime", count: 30 }
    }
}

/// One decimal digit.
pub open spec fn digit(d: int) -> char {
    if d == 0 {
        '0'
    } else if d == 1 {
        '1'
    } else if d == 2 {
        '2'
    } else if d == 3 {
        '3'
    } else if d == 4 {
        '4'
    } else if d == 5 {
        '5'
    } else if d == 6 {
        '6'
    } else if d == 7 {
        '7'
    } else if d == 8 {
        '8'
    } else {
        '9'
    }
}

/// A number in decimal.
pub open spec fn decimal(n: nat) -> Seq<char>
    decreases n,
{
    if n < 10 {
        seq![digit(n as int)]
    } else {
        decimal(n / 10).push(digit((n % 10) as int))
    }
}

/// One decimal digit, as text.
fn digit_text(d: u32) -> (r: &'static str)
    requires
        d < 10,
    ensures
        r@ == seq![digit(d as int)],
{
    proof {
        reveal_strlit("0");
        reveal_strlit("1");
        reveal_strlit("2");
        reveal_strlit("3");
        reveal_strlit("4");
        reveal_strlit("5");
        reveal_strlit("6");
        reveal_strlit("7");
        reveal_strlit("8");
        reveal_strlit("9");
    }
    let r = match d {
        0 => "0",
        1 => "1",
        2 => "2",
        3 => "3",
        4 => "4",
        5 => "5",
        6 => "6",
        7 => "7",
        8 => "8",
        _ => "9",
    };
    assert(r@ =~= seq![digit(d as int)]);
    r
}

/// Add a number in decimal to a text.
fn push_decimal(text: &mut String, n: u32)
    ensures
        final(text)@ == old(text)@ + decimal(n as nat),
    decreases n,
{
    if n >= 10 {
        push_decimal(text, n / 10);
    }
    text.append(digit_text(n % 10));
    assert(text@ =~= old(text)@ + decimal(n as nat));
}

/// Where one frame of a set is kept. Frames are numbered from one.
pub fn frame_path(dir: &str, stem: &str, n: u32) -> (r: String)
    ensures
        r@ == "XTextures\\"@ + dir@ + "\\"@ + stem@ + "."@ + decimal(n as nat) + ".blp"@,
{
    let mut r: String = String::new();
    r.append("XTextures\\");
    r.append(dir);
    r.append("\\");
    r.append(stem);
    r.append(".");
    push_decimal(&mut r, n);
    r.append(".blp");
    proof {
        reveal_strlit("");
    }
    assert(r@ =~= "XTextures\\"@ + dir@ + "\\"@ + stem@ + "."@ + decimal(n as nat) + ".blp"@);
    r
}

/// The width and height of a frame, or nothing for one that could not be read.
pub type FrameSize = Option<(u32, u32)>;

/// A run of frames that can share one texture array: those offered up to the first that cannot.
#[derive(Clone, Copy, Debug, PartialEq, Eq, Structural)]
pub struct FrameRun {
    /// The side of every frame so far, or zero while there is none.
    pub size: u32,
    /// How many frames there are so far.
    pub count: u32,
    /// Whether a frame has been turned away, which ends the run.
    pub ended: bool,
}

/// Whether a frame follows the frames before it into their array: it could be read, is square, and
/// has their side, a side of zero standing for none yet.
pub open spec fn follows(side: u32, frame: FrameSize) -> bool {
    match frame {
        Some((w, h)) => w == h && (side == 0 || w == side),
        None => false,
    }
}

/// The side of an array of the first `n` frames, where they fit: that of the last of them.
pub open spec fn array_side(frames: Seq<FrameSize>, n: int) -> u32 {
    if 0 < n <= frames.len() {
        match frames[n - 1] {
            Some((w, _)) => w,
            None => 0,
        }
    } else {
        0
    }
}

/// Whether the first `n` frames can share one array: each follows those before it.
pub open spec fn fits(frames: Seq<FrameSize>, n: int) -> bool {
    forall|k: int| 0 <= k < n ==> follows(array_side(frames, k), #[trigger] frames[k])
}

/// The run once a sequence of frames has been offered to it.
pub open spec fn run_of(frames: Seq<FrameSize>) -> FrameRun
    decreases frames.len(),
{
    if frames.len() == 0 {
        FrameRun { size: 0, count: 0, ended: false }
    } else {
        run_of(frames.drop_last()).next(frames.last())
    }
}

impl FrameRun {
    /// No frames yet.
    pub fn new() -> (r: Self)
        ensures
            r == run_of(Seq::empty()),
    {
        FrameRun { size: 0, count: 0, ended: false }
    }

    /// Whether the run takes a frame: it has not ended, and the frame follows those it has.
    pub open spec fn takes(self, frame: FrameSize) -> bool {
        !self.ended && follows(self.size, frame)
    }

    /// The run once a frame has been offered to it.
    pub open spec fn next(self, frame: FrameSize) -> Self {
        match frame {
            Some((w, _)) if self.takes(frame) => FrameRun {
                size: w,
                count: (self.count + 1) as u32,
                ended: false,
            },
            _ => FrameRun { ended: true, ..self },
        }
    }

    /// Offer the run the next frame's width and height, or nothing when it could not be read, and
    /// say whether it was taken. The first that is not ends the run.
    pub fn offer(&mut self, frame: FrameSize) -> (taken: bool)
        requires
            old(self).count < u32::MAX,
        ensures
            taken == old(self).takes(frame),
            *final(self) == old(self).next(frame),
    {
        match frame {
            Some((w, h)) => {
                if self.ended || w != h || (self.size != 0 && w != self.size) {
                    self.ended = true;
                    return false;
                }
                self.size = w;
                self.count = self.count + 1;
                true
            },
            None => {
                self.ended = true;
                false
            },
        }
    }
}

/// What fits one array does not depend on the frames after it.
proof fn lemma_same_start_fits(frames: Seq<FrameSize>, head: Seq<FrameSize>, last: int)
    requires
        0 <= last < frames.len(),
        last == head.len(),
        forall|k: int| 0 <= k < last ==> frames[k] == #[trigger] head[k],
    ensures
        forall|n: int| 0 <= n <= last ==> array_side(frames, n) == #[trigger] array_side(head, n),
        forall|n: int| 0 <= n <= last ==> fits(frames, n) == #[trigger] fits(head, n),
{
    assert forall|n: int| 0 <= n <= last implies array_side(frames, n) == #[trigger] array_side(
        head,
        n,
    ) by {
        if n > 0 {
            assert(frames[n - 1] == head[n - 1]);
        }
    }
    assert forall|n: int| 0 <= n <= last implies fits(frames, n) == #[trigger] fits(head, n) by {
        if fits(frames, n) {
            assert forall|k: int| 0 <= k < n implies follows(
                array_side(head, k),
                #[trigger] head[k],
            ) by {
                assert(follows(array_side(frames, k), frames[k]));
                assert(array_side(head, k) == array_side(frames, k));
            }
        }
        if fits(head, n) {
            assert forall|k: int| 0 <= k < n implies follows(
                array_side(frames, k),
                #[trigger] frames[k],
            ) by {
                assert(follows(array_side(head, k), head[k]));
                assert(array_side(head, k) == array_side(frames, k));
            }
        }
    }
}

/// A run is the longest start of the frames offered that fits one array: what it counts fits, it has
/// ended exactly where a frame was left over, and no longer start fits.
#[verifier::spinoff_prover]
pub proof fn law_a_run_is_the_longest_fitting_start(frames: Seq<FrameSize>)
    requires
        frames.len() <= u32::MAX,
    ensures
        ({
            let run = run_of(frames);
            &&& run.count <= frames.len()
            &&& run.ended <==> run.count < frames.len()
            &&& run.size == array_side(frames, run.count as int)
            &&& fits(frames, run.count as int)
            &&& forall|n: int| run.count < n <= frames.len() ==> !#[trigger] fits(frames, n)
        }),
    decreases frames.len(),
{
    if frames.len() > 0 {
        let head = frames.drop_last();
        law_a_run_is_the_longest_fitting_start(head);
        let run = run_of(head);
        let last = frames.len() - 1;
        lemma_same_start_fits(frames, head, last);
        assert(array_side(frames, last) == array_side(head, last));
        assert(fits(frames, last) == fits(head, last));
        let after = run_of(frames);
        assert(array_side(head, run.count as int) == array_side(frames, run.count as int));
        assert(fits(head, run.count as int) == fits(frames, run.count as int));
        assert forall|n: int| after.count < n <= frames.len() implies !#[trigger] fits(frames, n) by {
            if n <= last {
                assert(fits(frames, n) == fits(head, n));
            } else if fits(frames, n) {
                assert(follows(array_side(frames, last), frames[last]));
                assert forall|k: int| 0 <= k < last implies follows(
                    array_side(frames, k),
                    #[trigger] frames[k],
                ) by {}
                assert(fits(frames, last));
            }
        }
    }
}

/// Whether a kind's frames have their mean brightness flattened: a water's do, so that distant
/// water does not breathe with the animation, and a hazard's do not, where the swing is the body's
/// own pulse.
pub fn flattens_frames(kind: LiquidKind) -> (r: bool)
    ensures
        r == !kind.fullbright(),
{
    !kind.is_fullbright()
}

/// What one shared material is made with.
pub struct MaterialPlan<S> {
    pub key: LiquidKey,
    /// Whether it draws opaque, in the pass that writes depth, rather than blended.
    pub opaque: bool,
    /// Where it stands among the blended things at its depth.
    pub depth_bias: S,
    /// Fullbright, ocean, interior fog, and the exponent of the sun's sheen.
    pub kind: Vec4<S>,
    /// The renderer, and the look.
    pub path: Vec4<S>,
    /// Nothing, the number of frames, the scroll lane, and whether the clock runs.
    pub anim: Vec4<S>,
}

/// What every material is made with, whatever its kind.
pub struct MaterialScene<S> {
    /// The look's own lane.
    pub style_flag: S,
    /// The exponent of the sun's sheen.
    pub shininess: S,
    /// Where blended water stands among the blended things at its depth.
    pub water_bias: S,
    /// Whether the run is one whose pictures must not move.
    pub deterministic: bool,
}

/// The plan of one material.
pub open spec fn plan_of<S: Scalar>(
    key: LiquidKey,
    frames: u32,
    scene: MaterialScene<S>,
) -> MaterialPlan<S> {
    MaterialPlan {
        key,
        opaque: key.kind.fullbright(),
        depth_bias: if key.kind.fullbright() {
            int_of::<S>(0)
        } else {
            scene.water_bias
        },
        kind: Vec4 {
            x: flag(key.kind.fullbright()),
            y: flag(key.kind == LiquidKind::Ocean),
            z: flag(key.path.fogs_inside()),
            w: scene.shininess,
        },
        path: Vec4 {
            x: int_of::<S>(key.path.number()),
            y: scene.style_flag,
            z: int_of::<S>(0),
            w: int_of::<S>(0),
        },
        anim: Vec4 {
            x: int_of::<S>(0),
            y: int_of::<S>(frames as int),
            z: flag(key.scroll),
            w: flag(!scene.deterministic),
        },
    }
}

/// The `n`th renderer.
pub open spec fn nth_path(n: int) -> LiquidPath {
    if n == 0 {
        LiquidPath::Adt
    } else if n == 1 {
        LiquidPath::WmoExterior
    } else {
        LiquidPath::WmoInterior
    }
}

/// The keys of a kind: every renderer, and on each the scroll lanes it can be asked for. Only the
/// hazards can be asked for a scrolling one.
pub open spec fn keys_of(kind: LiquidKind) -> Seq<LiquidKey> {
    if kind.fullbright() {
        Seq::new(
            6,
            |n: int| LiquidKey { kind, path: nth_path(n / 2), scroll: n % 2 == 1 },
        )
    } else {
        Seq::new(3, |n: int| LiquidKey { kind, path: nth_path(n), scroll: false })
    }
}

/// The plans of a kind's materials.
pub open spec fn kind_plans<S: Scalar>(
    kind: LiquidKind,
    frames: u32,
    scene: MaterialScene<S>,
) -> Seq<MaterialPlan<S>> {
    Seq::new(keys_of(kind).len(), |n: int| plan_of(keys_of(kind)[n], frames, scene))
}

/// The plans of the materials of the first `n` frame sets, of those that loaded.
pub open spec fn set_plans<S: Scalar>(
    loaded: Seq<Option<u32>>,
    scene: MaterialScene<S>,
    n: int,
) -> Seq<MaterialPlan<S>>
    decreases n,
{
    if n <= 0 {
        Seq::empty()
    } else {
        let before = set_plans(loaded, scene, n - 1);
        match loaded[n - 1] {
            Some(frames) => before + kind_plans(set_kind(n - 1), frames, scene),
            None => before,
        }
    }
}

/// The plan of one material.
fn make_plan<S: Scalar>(key: LiquidKey, frames: u32, scene: &MaterialScene<S>) -> (r: MaterialPlan<
    S,
>)
    ensures
        r == plan_of(key, frames, *scene),
{
    let zero: S = whole_number(0);
    let bright: bool = key.kind.is_fullbright();
    MaterialPlan {
        key,
        opaque: bright,
        depth_bias: if bright {
            zero
        } else {
            scene.water_bias
        },
        kind: Vec4 {
            x: raise(bright),
            y: raise(key.kind == LiquidKind::Ocean),
            z: raise(key.path.interior_fog()),
            w: scene.shininess,
        },
        path: Vec4 { x: key.path.shader_id(), y: scene.style_flag, z: zero, w: zero },
        anim: Vec4 {
            x: zero,
            y: whole_number(frames as i64),
            z: raise(key.scroll),
            w: raise(!scene.deterministic),
        },
    }
}

/// Plan every liquid material: for each frame set that loaded, with so many frames, one material
/// for every renderer and scroll lane its kind can take, in order.
///
/// Water draws blended and hazards opaque. The scroll variant exists only for the hazards, the only
/// kinds whose nibbles can ask for one.
pub fn setup_liquid<S: Scalar>(loaded: &Vec<Option<u32>>, scene: &MaterialScene<S>) -> (r: Vec<
    MaterialPlan<S>,
>)
    requires
        loaded@.len() == FRAME_SETS,
    ensures
        r@ == set_plans(loaded@, *scene, FRAME_SETS as int),
{
    let mut plans: Vec<MaterialPlan<S>> = Vec::new();
    let mut n: usize = 0;
    while n < FRAME_SETS
        invariant
            n <= FRAME_SETS,
            loaded@.len() == FRAME_SETS,
            plans@ == set_plans(loaded@, *scene, n as int),
        decreases FRAME_SETS - n,
    {
        let kind: LiquidKind = frame_set(n).kind;
        let ghost before = plans@;
        match loaded[n] {
            Some(frames) => {
                let bright: bool = kind.is_fullbright();
                let total: usize = if bright {
                    6
                } else {
                    3
                };
                let mut k: usize = 0;
                while k < total
                    invariant
                        k <= total,
                        bright == kind.fullbright(),
                        total == keys_of(kind).len(),
                        plans@ == before + kind_plans(kind, frames, *scene).take(k as int),
                    decreases total - k,
                {
                    let place: usize = if bright {
                        k / 2
                    } else {
                        k
                    };
                    let path: LiquidPath = match place {
                        0 => LiquidPath::Adt,
                        1 => LiquidPath::WmoExterior,
                        _ => LiquidPath::WmoInterior,
                    };
                    let key: LiquidKey = LiquidKey { kind, path, scroll: bright && k % 2 == 1 };
                    assert(key == keys_of(kind)[k as int]);
                    plans.push(make_plan(key, frames, scene));
                    k = k + 1;
                    assert(plans@ =~= before + kind_plans(kind, frames, *scene).take(k as int));
                }
                assert(kind_plans(kind, frames, *scene).take(total as int) =~= kind_plans(
                    kind,
                    frames,
                    *scene,
                ));
            },
            None => {},
        }
        n = n + 1;
    }
    plans
}

/// How many of the first `n` frame sets have a material.
pub open spec fn sets_with_material<M>(assets: Map<LiquidKey, M>, n: int) -> nat
    decreases n,
{
    if n <= 0 {
        0
    } else {
        sets_with_material(assets, n - 1) + if assets.dom().contains(
            LiquidKey { kind: set_kind(n - 1), path: LiquidPath::Adt, scroll: false },
        ) {
            1nat
        } else {
            0
        }
    }
}

/// How many frame sets loaded: sets, not materials, for a set backs every variant of its kind.
pub fn loaded_sets<M>(assets: &LiquidAssets<M>) -> (r: usize)
    requires
        assets.wf(),
    ensures
        r == sets_with_material(assets@, FRAME_SETS as int),
{
    let mut found: usize = 0;
    let mut n: usize = 0;
    while n < FRAME_SETS
        invariant
            n <= FRAME_SETS,
            found <= n,
            assets.wf(),
            found == sets_with_material(assets@, n as int),
        decreases FRAME_SETS - n,
    {
        if assets.material(frame_set(n).kind, LiquidPath::Adt, false).is_some() {
            found = found + 1;
        }
        n = n + 1;
    }
    found
}

/// A scroll lane exists for a kind exactly when some nibble that scrolls names it, so no material is
/// built that no surface can ask for, and none is missing that one can.
pub proof fn law_scroll_lanes_match_the_nibbles(kind: LiquidKind)
    ensures
        kind.fullbright() <==> exists|n: u8|
            scrolling(n) && #[trigger] LiquidKind::hazard_of(n) == Some(kind),
        (exists|k: int| 0 <= k < keys_of(kind).len() && (#[trigger] keys_of(kind)[k]).scroll)
            <==> kind.fullbright(),
{
    assert(LiquidKind::hazard_of(6) == Some(LiquidKind::Magma));
    assert(LiquidKind::hazard_of(7) == Some(LiquidKind::Slime));
    if kind.fullbright() {
        assert(keys_of(kind)[1].scroll);
    }
}

/// A kind's materials have distinct keys, and there is one for each renderer standing still.
pub proof fn law_keys_cover_the_renderers(kind: LiquidKind, path: LiquidPath)
    ensures
        keys_of(kind).no_duplicates(),
        keys_of(kind).contains((LiquidKey { kind, path, scroll: false })),
        kind.fullbright() ==> keys_of(kind).contains((LiquidKey { kind, path, scroll: true })),
{
    let n = path.number();
    if kind.fullbright() {
        assert(keys_of(kind)[2 * n] == (LiquidKey { kind, path, scroll: false }));
        assert(keys_of(kind)[2 * n + 1] == (LiquidKey { kind, path, scroll: true }));
    } else {
        assert(keys_of(kind)[n] == (LiquidKey { kind, path, scroll: false }));
    }
}

} // verus!
